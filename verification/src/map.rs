//! The tile grid: tiles, rooms, and the per-tile blocking, visibility and
//! occupancy records that the systems read and rebuild.

use crate::components::Entity;
use crate::rect::Rect;
use crate::rng::{new_rng, range, roll_dice};
use std::collections::HashSet;
use vstd::prelude::*;

verus! {

/// Width of a generated map, in tiles.
pub const MAPWIDTH: usize = 80;

/// Height of a generated map, in tiles.
pub const MAPHEIGHT: usize = 42;

/// Number of tiles of a generated map.
pub const MAPCOUNT: usize = MAPHEIGHT * MAPWIDTH;

/// How many rooms the generator tries to place.
pub const MAX_ROOMS: i32 = 30;

/// Smallest side of a sampled room.
pub const MIN_SIZE: i32 = 6;

/// Upper bound, not reached, of the side of a sampled room.
pub const MAX_SIZE: i32 = 10;

/// What a tile is made of.
#[derive(PartialEq, Eq, Structural, Copy, Clone, Debug)]
pub enum TileType {
    Wall,
    Floor,
    DownStairs,
}

/// A level of the dungeon. Tiles are stored row by row.
pub struct TileMap {
    pub tiles: Vec<TileType>,
    pub rooms: Vec<Rect>,
    pub width: i32,
    pub height: i32,
    pub revealed_tiles: Vec<bool>,
    pub visible_tiles: Vec<bool>,
    pub blocked: Vec<bool>,
    pub depth: i32,
    pub bloodstains: HashSet<usize>,
    /// The entities standing on each tile. Rebuilt on every pass, never saved.
    pub tile_content: Vec<Vec<Entity>>,
}

/// A tile inside a `w` by `h` grid has a row-major index below `w * h`.
pub proof fn lemma_index_in_range(w: int, h: int, x: int, y: int)
    requires
        0 <= x < w,
        0 <= y < h,
    ensures
        0 <= y * w + x < w * h,
        (y * w + x) % w == x,
        (y * w + x) / w == y,
{
    assert(0 <= y * w) by (nonlinear_arith)
        requires
            0 <= y,
            0 < w,
    ;
    assert(y * w + w <= h * w) by (nonlinear_arith)
        requires
            y + 1 <= h,
            0 < w,
    ;
    assert(h * w == w * h) by (nonlinear_arith);
    vstd::arithmetic::div_mod::lemma_fundamental_div_mod_converse(y * w + x, w, y, x);
}

/// An index below `w * h` names a tile inside the grid.
pub proof fn lemma_coords_in_range(w: int, h: int, idx: int)
    requires
        0 < w,
        0 <= idx < w * h,
    ensures
        0 <= idx % w < w,
        0 <= idx / w < h,
        (idx / w) * w + idx % w == idx,
{
    vstd::arithmetic::div_mod::lemma_fundamental_div_mod(idx, w);
    assert(idx / w < h) by (nonlinear_arith)
        requires
            0 < w,
            idx < w * h,
            idx == w * (idx / w) + idx % w,
            0 <= idx % w,
    ;
    assert(0 <= idx / w) by (nonlinear_arith)
        requires
            0 < w,
            0 <= idx,
            idx == w * (idx / w) + idx % w,
            idx % w < w,
    ;
    assert(w * (idx / w) == (idx / w) * w) by (nonlinear_arith);
}

/// The lesser of two integers.
pub open spec fn spec_min(a: int, b: int) -> int {
    if a <= b {
        a
    } else {
        b
    }
}

/// The greater of two integers.
pub open spec fn spec_max(a: int, b: int) -> int {
    if a <= b {
        b
    } else {
        a
    }
}

/// The tile `(px, py)` lies on the corridor along row `y` between the
/// columns `x1` and `x2`. The corner tile `(0, 0)` belongs to no corridor.
pub open spec fn on_horizontal_tunnel(x1: int, x2: int, y: int, px: int, py: int) -> bool {
    py == y && spec_min(x1, x2) <= px <= spec_max(x1, x2) && !(px == 0 && py == 0)
}

/// The tile `(px, py)` lies on the corridor along column `x` between the
/// rows `y1` and `y2`. The corner tile `(0, 0)` belongs to no corridor.
pub open spec fn on_vertical_tunnel(y1: int, y2: int, x: int, px: int, py: int) -> bool {
    px == x && spec_min(y1, y2) <= py <= spec_max(y1, y2) && !(px == 0 && py == 0)
}

/// Cost of a step along a row or a column, in hundredths.
pub const ORTHOGONAL_COST: u32 = 100;

/// Cost of a step across a corner, in hundredths: 1.45, a little above the
/// square root of two.
pub const DIAGONAL_COST: u32 = 145;

/// The `k`-th neighbour of a tile as offsets in x and y and the cost of the
/// step to it.
pub open spec fn neighbour(k: int) -> (int, int, u32) {
    if k == 0 {
        (-1, 0, ORTHOGONAL_COST)
    } else if k == 1 {
        (1, 0, ORTHOGONAL_COST)
    } else if k == 2 {
        (0, -1, ORTHOGONAL_COST)
    } else if k == 3 {
        (0, 1, ORTHOGONAL_COST)
    } else if k == 4 {
        (-1, -1, DIAGONAL_COST)
    } else if k == 5 {
        (1, -1, DIAGONAL_COST)
    } else if k == 6 {
        (-1, 1, DIAGONAL_COST)
    } else {
        (1, 1, DIAGONAL_COST)
    }
}

/// The tile `(px, py)` lies on the corridor that joins the room centres
/// `prev` and `next`: one horizontal and one vertical stretch, the horizontal
/// one leaving from `prev` when `horizontal_first` holds and arriving at
/// `next` otherwise.
pub open spec fn on_corridor(prev: (int, int), next: (int, int), horizontal_first: bool, px: int, py: int) -> bool {
    if horizontal_first {
        on_horizontal_tunnel(prev.0, next.0, prev.1, px, py) || on_vertical_tunnel(prev.1, next.1, next.0, px, py)
    } else {
        on_vertical_tunnel(prev.1, next.1, prev.0, px, py) || on_horizontal_tunnel(prev.0, next.0, next.1, px, py)
    }
}

/// The tile `(px, py)` lies on one of the two corridors, horizontal first or
/// vertical first, between the centres of the rooms `a` and `b`.
pub open spec fn corridor_between(a: Rect, b: Rect, px: int, py: int) -> bool {
    on_corridor(a.center_spec(), b.center_spec(), true, px, py) || on_corridor(
        a.center_spec(),
        b.center_spec(),
        false,
        px,
        py,
    )
}

/// The tile `(px, py)` turns to floor when `room` is added after the rooms
/// `rooms`: it lies in the new room, or on the corridor to the room before it.
pub open spec fn carved_by(rooms: Seq<Rect>, room: Rect, horizontal_first: bool, px: int, py: int) -> bool {
    room.interior(px, py) || (rooms.len() > 0 && on_corridor(
        rooms.last().center_spec(),
        room.center_spec(),
        horizontal_first,
        px,
        py,
    ))
}

impl TileMap {
    /// The grid has a positive size that fits the index type, and every
    /// per-tile vector holds one entry per tile.
    pub open spec fn wf(&self) -> bool {
        &&& 0 < self.width
        &&& 0 < self.height
        &&& self.width * self.height <= i32::MAX
        &&& self.tiles@.len() == self.width * self.height
        &&& self.revealed_tiles@.len() == self.width * self.height
        &&& self.visible_tiles@.len() == self.width * self.height
        &&& self.blocked@.len() == self.width * self.height
        &&& self.tile_content@.len() == self.width * self.height
    }

    /// The number of tiles.
    pub open spec fn count(&self) -> int {
        self.width * self.height
    }

    /// The tile `(x, y)` lies on the grid.
    pub open spec fn in_bounds(&self, x: int, y: int) -> bool {
        0 <= x < self.width && 0 <= y < self.height
    }

    /// Row-major index of the tile `(x, y)`.
    pub open spec fn index_of(&self, x: int, y: int) -> int {
        y * self.width + x
    }

    /// The tile at `(x, y)`.
    pub open spec fn tile(&self, x: int, y: int) -> TileType {
        self.tiles@[self.index_of(x, y)]
    }

    /// The tile at `(x, y)` is inside the grid and is not a wall.
    pub open spec fn open_at(&self, x: int, y: int) -> bool {
        self.in_bounds(x, y) && self.tile(x, y) != TileType::Wall
    }

    /// Same grid size, and the same as `before` in everything but the tiles.
    pub open spec fn retiled_from(&self, before: &TileMap) -> bool {
        &&& *self == (TileMap { tiles: self.tiles, ..*before })
        &&& self.tiles@.len() == before.tiles@.len()
    }

    /// Whether the map is well formed.
    pub fn is_sound(&self) -> (sound: bool)
        ensures
            sound == self.wf(),
    {
        if self.width <= 0 || self.height <= 0 {
            return false;
        }
        assert(0 < self.width * self.height <= 0x4000_0000_0000_0000) by (nonlinear_arith)
            requires
                0 < self.width <= 0x7fff_ffff,
                0 < self.height <= 0x7fff_ffff,
        ;
        let count: i64 = self.width as i64 * self.height as i64;
        if count > i32::MAX as i64 {
            return false;
        }
        let count = count as usize;
        self.tiles.len() == count && self.revealed_tiles.len() == count && self.visible_tiles.len() == count
            && self.blocked.len() == count && self.tile_content.len() == count
    }

    /// Index of the tile `(x, y)`.
    pub fn xy_idx(&self, x: i32, y: i32) -> (idx: usize)
        requires
            self.wf(),
            self.in_bounds(x as int, y as int),
        ensures
            idx == self.index_of(x as int, y as int),
            idx < self.count(),
    {
        proof {
            lemma_index_in_range(self.width as int, self.height as int, x as int, y as int);
        }
        (y as usize * self.width as usize) + x as usize
    }

    /// Sets every tile of the room's floor area to `Floor`.
    pub fn apply_room_to_map(&mut self, room: &Rect)
        requires
            old(self).wf(),
            0 <= room.x1,
            room.x2 < old(self).width,
            0 <= room.y1,
            room.y2 < old(self).height,
        ensures
            final(self).retiled_from(old(self)),
            forall|x: int, y: int|
                old(self).in_bounds(x, y) ==> #[trigger] final(self).tile(x, y) == if room.interior(x, y) {
                    TileType::Floor
                } else {
                    old(self).tile(x, y)
                },
    {
        if room.x1 >= room.x2 || room.y1 >= room.y2 {
            return ;
        }
        let ghost before = *self;
        let mut y: i32 = room.y1 + 1;
        while y <= room.y2
            invariant
                before.wf(),
                room.x1 < room.x2,
                0 <= room.x1,
                room.x2 < before.width,
                0 <= room.y1,
                room.y2 < before.height,
                room.y1 < y <= room.y2 + 1,
                self.retiled_from(&before),
                forall|px: int, py: int|
                    before.in_bounds(px, py) ==> #[trigger] self.tile(px, py) == if room.interior(px, py) && py
                        < y {
                        TileType::Floor
                    } else {
                        before.tile(px, py)
                    },
            decreases room.y2 + 1 - y,
        {
            let mut x: i32 = room.x1 + 1;
            while x <= room.x2
                invariant
                    before.wf(),
                    room.x1 < room.x2,
                    0 <= room.x1,
                    room.x2 < before.width,
                    0 <= room.y1,
                    room.y2 < before.height,
                    room.y1 < y <= room.y2,
                    room.x1 < x <= room.x2 + 1,
                    self.retiled_from(&before),
                    forall|px: int, py: int|
                        before.in_bounds(px, py) ==> #[trigger] self.tile(px, py) == if room.interior(px, py) && (py
                            < y || (py == y && px < x)) {
                            TileType::Floor
                        } else {
                            before.tile(px, py)
                        },
                decreases room.x2 + 1 - x,
            {
                let ghost prev = *self;
                let idx = self.xy_idx(x, y);
                self.tiles[idx] = TileType::Floor;
                proof {
                    assert forall|px: int, py: int| before.in_bounds(px, py) implies #[trigger] self.tile(px, py)
                        == if room.interior(px, py) && (py < y || (py == y && px < x + 1)) {
                        TileType::Floor
                    } else {
                        before.tile(px, py)
                    } by {
                        lemma_index_in_range(before.width as int, before.height as int, px, py);
                        lemma_index_in_range(before.width as int, before.height as int, x as int, y as int);
                        assert(prev.tile(px, py) == prev.tiles@[prev.index_of(px, py)]);
                        if before.index_of(px, py) == before.index_of(x as int, y as int) {
                            assert(px == x && py == y);
                        }
                    if before.index_of(px, py) == before.index_of(x as int, y as int) {
                        assert(px == x && py == y);
                    }
                    }
                }
                x = x + 1;
            }
            y = y + 1;
        }
    }

    /// Carves the tiles of row `y` between the columns `x1` and `x2`, both
    /// included, in either order. The tile with index 0 is never carved.
    pub fn apply_horizontal_tunnel(&mut self, x1: i32, x2: i32, y: i32)
        requires
            old(self).wf(),
            old(self).in_bounds(x1 as int, y as int),
            old(self).in_bounds(x2 as int, y as int),
        ensures
            final(self).retiled_from(old(self)),
            forall|px: int, py: int|
                old(self).in_bounds(px, py) ==> #[trigger] final(self).tile(px, py) == if on_horizontal_tunnel(
                    x1 as int,
                    x2 as int,
                    y as int,
                    px,
                    py,
                ) {
                    TileType::Floor
                } else {
                    old(self).tile(px, py)
                },
    {
        let ghost before = *self;
        let lo = if x1 <= x2 { x1 } else { x2 };
        let hi = if x1 <= x2 { x2 } else { x1 };
        let mut x: i32 = lo;
        while x <= hi
            invariant
                before.wf(),
                before.in_bounds(lo as int, y as int),
                before.in_bounds(hi as int, y as int),
                lo == spec_min(x1 as int, x2 as int),
                hi == spec_max(x1 as int, x2 as int),
                lo <= x <= hi + 1,
                self.retiled_from(&before),
                forall|px: int, py: int|
                    before.in_bounds(px, py) ==> #[trigger] self.tile(px, py) == if on_horizontal_tunnel(
                        x1 as int,
                        x2 as int,
                        y as int,
                        px,
                        py,
                    ) && px < x {
                        TileType::Floor
                    } else {
                        before.tile(px, py)
                    },
            decreases hi + 1 - x,
        {
            let ghost prev = *self;
            let idx = self.xy_idx(x, y);
            if idx > 0 && idx < self.width as usize * self.height as usize {
                self.tiles[idx] = TileType::Floor;
            }
            proof {
                assert forall|px: int, py: int| before.in_bounds(px, py) implies #[trigger] self.tile(px, py)
                    == if on_horizontal_tunnel(x1 as int, x2 as int, y as int, px, py) && px < x + 1 {
                    TileType::Floor
                } else {
                    before.tile(px, py)
                } by {
                    lemma_index_in_range(before.width as int, before.height as int, px, py);
                    lemma_index_in_range(before.width as int, before.height as int, x as int, y as int);
                    assert(prev.tile(px, py) == prev.tiles@[prev.index_of(px, py)]);
                    if before.index_of(px, py) == before.index_of(x as int, y as int) {
                        assert(px == x && py == y);
                    }
                }
            }
            x = x + 1;
        }
    }

    /// Carves the tiles of column `x` between the rows `y1` and `y2`, both
    /// included, in either order. The tile with index 0 is never carved.
    pub fn apply_vertical_tunnel(&mut self, y1: i32, y2: i32, x: i32)
        requires
            old(self).wf(),
            old(self).in_bounds(x as int, y1 as int),
            old(self).in_bounds(x as int, y2 as int),
        ensures
            final(self).retiled_from(old(self)),
            forall|px: int, py: int|
                old(self).in_bounds(px, py) ==> #[trigger] final(self).tile(px, py) == if on_vertical_tunnel(
                    y1 as int,
                    y2 as int,
                    x as int,
                    px,
                    py,
                ) {
                    TileType::Floor
                } else {
                    old(self).tile(px, py)
                },
    {
        let ghost before = *self;
        let lo = if y1 <= y2 { y1 } else { y2 };
        let hi = if y1 <= y2 { y2 } else { y1 };
        let mut y: i32 = lo;
        while y <= hi
            invariant
                before.wf(),
                before.in_bounds(x as int, lo as int),
                before.in_bounds(x as int, hi as int),
                lo == spec_min(y1 as int, y2 as int),
                hi == spec_max(y1 as int, y2 as int),
                lo <= y <= hi + 1,
                self.retiled_from(&before),
                forall|px: int, py: int|
                    before.in_bounds(px, py) ==> #[trigger] self.tile(px, py) == if on_vertical_tunnel(
                        y1 as int,
                        y2 as int,
                        x as int,
                        px,
                        py,
                    ) && py < y {
                        TileType::Floor
                    } else {
                        before.tile(px, py)
                    },
            decreases hi + 1 - y,
        {
            let ghost prev = *self;
            let idx = self.xy_idx(x, y);
            if idx > 0 && idx < self.width as usize * self.height as usize {
                self.tiles[idx] = TileType::Floor;
            }
            proof {
                assert forall|px: int, py: int| before.in_bounds(px, py) implies #[trigger] self.tile(px, py)
                    == if on_vertical_tunnel(y1 as int, y2 as int, x as int, px, py) && py < y + 1 {
                    TileType::Floor
                } else {
                    before.tile(px, py)
                } by {
                    lemma_index_in_range(before.width as int, before.height as int, px, py);
                    lemma_index_in_range(before.width as int, before.height as int, x as int, y as int);
                    assert(prev.tile(px, py) == prev.tiles@[prev.index_of(px, py)]);
                    if before.index_of(px, py) == before.index_of(x as int, y as int) {
                        assert(px == x && py == y);
                    }
                }
            }
            y = y + 1;
        }
    }

    /// The room leaves a border of one tile to the edge of the grid and is
    /// at least two tiles wide and high, so that its centre is floor.
    pub open spec fn room_fits(&self, r: Rect) -> bool {
        &&& 1 <= r.x1
        &&& r.x1 + 2 <= r.x2
        &&& r.x2 <= self.width - 2
        &&& 1 <= r.y1
        &&& r.y1 + 2 <= r.y2
        &&& r.y2 <= self.height - 2
    }

    /// Every room of the map fits.
    pub open spec fn rooms_fit(&self) -> bool {
        forall|i: int| 0 <= i < self.rooms@.len() ==> self.room_fits(#[trigger] self.rooms@[i])
    }

    /// Every room of the map has sides of at least `MIN_SIZE` and less than
    /// `MAX_SIZE` tiles.
    pub open spec fn rooms_sized(&self) -> bool {
        forall|i: int|
            0 <= i < self.rooms@.len() ==> {
                &&& MIN_SIZE <= (#[trigger] self.rooms@[i]).x2 - self.rooms@[i].x1 < MAX_SIZE
                &&& MIN_SIZE <= self.rooms@[i].y2 - self.rooms@[i].y1 < MAX_SIZE
            }
    }

    /// No two rooms of the map overlap.
    pub open spec fn rooms_disjoint(&self) -> bool {
        forall|i: int, j: int|
            0 <= i < j < self.rooms@.len() ==> !(#[trigger] self.rooms@[i]).overlaps(#[trigger] self.rooms@[j])
    }

    /// `room` overlaps none of the rooms of the map.
    pub open spec fn is_free(&self, room: Rect) -> bool {
        forall|i: int| 0 <= i < self.rooms@.len() ==> !room.overlaps(#[trigger] self.rooms@[i])
    }

    /// The floor area of every room is open.
    pub open spec fn rooms_open(&self) -> bool {
        forall|i: int, x: int, y: int|
            0 <= i < self.rooms@.len() && (#[trigger] self.rooms@[i]).interior(x, y) ==> #[trigger] self.open_at(
                x,
                y,
            )
    }

    /// The tile `(x, y)` lies on the floor of a room, or on a corridor
    /// between the centres of a room and the room placed before it.
    pub open spec fn dug(&self, x: int, y: int) -> bool {
        ||| exists|i: int| 0 <= i < self.rooms@.len() && (#[trigger] self.rooms@[i]).interior(x, y)
        ||| exists|i: int|
            1 <= i < self.rooms@.len() && corridor_between(self.rooms@[i - 1], #[trigger] self.rooms@[i], x, y)
    }

    /// The corridor between the centres of the room `k` and the room before
    /// it is open from end to end; `horizontal_first` tells which of the two
    /// corridors is meant.
    pub open spec fn corridor_open(&self, k: int, horizontal_first: bool) -> bool {
        forall|x: int, y: int|
            on_corridor(
                self.rooms@[k - 1].center_spec(),
                self.rooms@[k].center_spec(),
                horizontal_first,
                x,
                y,
            ) ==> #[trigger] self.open_at(x, y)
    }

    /// Every room after the first is joined to the room before it: of the
    /// two corridors between their centres, one is open from end to end.
    pub open spec fn corridors_open(&self) -> bool {
        forall|k: int|
            1 <= k < self.rooms@.len() ==> #[trigger] self.corridor_open(k, true) || self.corridor_open(k, false)
    }

    /// Nothing is open but the rooms and the corridors between them.
    pub open spec fn only_dug_open(&self) -> bool {
        forall|x: int, y: int| #[trigger] self.open_at(x, y) ==> self.dug(x, y)
    }

    /// A grid of the standard size that is all wall: no room, nothing seen,
    /// nothing blocked, nobody on it.
    pub open spec fn is_blank(&self, depth: i32) -> bool {
        &&& self.wf()
        &&& self.width == MAPWIDTH
        &&& self.height == MAPHEIGHT
        &&& self.depth == depth
        &&& self.rooms@.len() == 0
        &&& self.bloodstains@ == Set::<usize>::empty()
        &&& forall|i: int| 0 <= i < self.count() ==> self.tiles@[i] == TileType::Wall
        &&& self.unexplored()
    }

    /// Nothing is revealed, visible or blocked, and no tile has an occupant.
    pub open spec fn unexplored(&self) -> bool {
        &&& forall|i: int| 0 <= i < self.revealed_tiles@.len() ==> !self.revealed_tiles@[i]
        &&& forall|i: int| 0 <= i < self.visible_tiles@.len() ==> !self.visible_tiles@[i]
        &&& forall|i: int| 0 <= i < self.blocked@.len() ==> !self.blocked@[i]
        &&& forall|i: int| 0 <= i < self.tile_content@.len() ==> self.tile_content@[i]@.len() == 0
    }

    /// A map of the standard size, all wall.
    pub fn blank(new_depth: i32) -> (map: TileMap)
        ensures
            map.is_blank(new_depth),
    {
        let mut tiles: Vec<TileType> = Vec::new();
        let mut revealed_tiles: Vec<bool> = Vec::new();
        let mut visible_tiles: Vec<bool> = Vec::new();
        let mut blocked: Vec<bool> = Vec::new();
        let mut tile_content: Vec<Vec<Entity>> = Vec::new();
        let mut i: usize = 0;
        while i < MAPCOUNT
            invariant
                0 <= i <= MAPCOUNT,
                tiles@.len() == i,
                revealed_tiles@.len() == i,
                visible_tiles@.len() == i,
                blocked@.len() == i,
                tile_content@.len() == i,
                forall|j: int| 0 <= j < i ==> tiles@[j] == TileType::Wall,
                forall|j: int| 0 <= j < i ==> !revealed_tiles@[j],
                forall|j: int| 0 <= j < i ==> !visible_tiles@[j],
                forall|j: int| 0 <= j < i ==> !blocked@[j],
                forall|j: int| 0 <= j < i ==> tile_content@[j]@.len() == 0,
            decreases MAPCOUNT - i,
        {
            tiles.push(TileType::Wall);
            revealed_tiles.push(false);
            visible_tiles.push(false);
            blocked.push(false);
            tile_content.push(Vec::new());
            i = i + 1;
        }
        TileMap {
            tiles,
            rooms: Vec::new(),
            width: MAPWIDTH as i32,
            height: MAPHEIGHT as i32,
            revealed_tiles,
            visible_tiles,
            blocked,
            depth: new_depth,
            bloodstains: HashSet::new(),
            tile_content,
        }
    }

    /// Whether `room` overlaps none of the rooms placed so far.
    pub fn room_is_free(&self, room: &Rect) -> (free: bool)
        ensures
            free == self.is_free(*room),
    {
        let mut ok = true;
        let mut i: usize = 0;
        while i < self.rooms.len()
            invariant
                0 <= i <= self.rooms@.len(),
                ok == (forall|j: int| 0 <= j < i ==> !room.overlaps(#[trigger] self.rooms@[j])),
            decreases self.rooms@.len() - i,
        {
            if room.intersect(&self.rooms[i]) {
                ok = false;
            }
            i = i + 1;
        }
        ok
    }

    /// Adds `room` to the map: carves its floor area and, where a room was
    /// placed before, the corridor between the two centres; then records the
    /// room as the last one.
    pub fn add_room(&mut self, room: Rect, horizontal_first: bool)
        requires
            old(self).wf(),
            old(self).rooms_fit(),
            old(self).room_fits(room),
        ensures
            *final(self) == (TileMap { tiles: final(self).tiles, rooms: final(self).rooms, ..*old(self) }),
            final(self).tiles@.len() == old(self).tiles@.len(),
            final(self).rooms@ == old(self).rooms@.push(room),
            forall|x: int, y: int|
                old(self).in_bounds(x, y) ==> #[trigger] final(self).tile(x, y) == if carved_by(
                    old(self).rooms@,
                    room,
                    horizontal_first,
                    x,
                    y,
                ) {
                    TileType::Floor
                } else {
                    old(self).tile(x, y)
                },
    {
        let ghost before = *self;
        self.apply_room_to_map(&room);
        let ghost roomed = *self;
        let ghost mut half_dug = *self;
        if self.rooms.len() > 0 {
            let (new_x, new_y) = room.center();
            let prev = self.rooms[self.rooms.len() - 1];
            let (prev_x, prev_y) = prev.center();
            assert(before.room_fits(prev));
            if horizontal_first {
                self.apply_horizontal_tunnel(prev_x, new_x, prev_y);
                proof {
                    half_dug = *self;
                }
                self.apply_vertical_tunnel(prev_y, new_y, new_x);
            } else {
                self.apply_vertical_tunnel(prev_y, new_y, prev_x);
                proof {
                    half_dug = *self;
                }
                self.apply_horizontal_tunnel(prev_x, new_x, new_y);
            }
        }
        let ghost dug = *self;
        self.rooms.push(room);
        proof {
            assert forall|x: int, y: int| before.in_bounds(x, y) implies #[trigger] self.tile(x, y) == if carved_by(
                before.rooms@,
                room,
                horizontal_first,
                x,
                y,
            ) {
                TileType::Floor
            } else {
                before.tile(x, y)
            } by {
                assert(self.tile(x, y) == dug.tile(x, y));
                let a = roomed.tile(x, y);
                let b = half_dug.tile(x, y);
            }
        }
    }

    /// Turns the centre of the last room into the way down.
    pub fn place_stairs(&mut self)
        requires
            old(self).wf(),
            old(self).rooms@.len() > 0,
            old(self).rooms_fit(),
        ensures
            final(self).retiled_from(old(self)),
            final(self).tiles@ == old(self).tiles@.update(
                old(self).index_of(
                    old(self).rooms@.last().center_spec().0,
                    old(self).rooms@.last().center_spec().1,
                ),
                TileType::DownStairs,
            ),
    {
        let last = self.rooms[self.rooms.len() - 1];
        assert(self.room_fits(last));
        let stairs_position = last.center();
        let stairs_idx = self.xy_idx(stairs_position.0, stairs_position.1);
        self.tiles[stairs_idx] = TileType::DownStairs;
    }

    /// What holds of every generated map: it has the standard size and the
    /// given depth; it has between one and `MAX_ROOMS` rooms of the sampled
    /// sizes, which keep inside the border, do not overlap and have an open
    /// floor; each room after the first is joined to the room before it by a
    /// corridor that is open from end to end; nothing is
    /// open but the rooms and one corridor from each room to the next; the
    /// centre of the last room, and no other tile, is the way down; every
    /// open tile can be reached from the centre of the first room; and
    /// nothing is revealed, visible, blocked or occupied yet.
    pub open spec fn is_generated(&self, depth: i32) -> bool {
        &&& self.wf()
        &&& self.width == MAPWIDTH
        &&& self.height == MAPHEIGHT
        &&& self.depth == depth
        &&& 1 <= self.rooms@.len() <= MAX_ROOMS
        &&& self.rooms_fit()
        &&& self.rooms_sized()
        &&& self.rooms_disjoint()
        &&& self.rooms_open()
        &&& self.corridors_open()
        &&& self.only_dug_open()
        &&& self.unexplored()
        &&& self.bloodstains@ == Set::<usize>::empty()
        &&& forall|x: int, y: int|
            self.in_bounds(x, y) ==> (#[trigger] self.tile(x, y) == TileType::DownStairs <==> (x, y)
                == self.rooms@.last().center_spec())
        &&& self.all_reachable_from(self.rooms@[0].center_spec())
    }

    /// Builds a level from the rolls of `rng`: `MAX_ROOMS` times a room of
    /// random size and place is sampled and, where it overlaps no room placed
    /// before, added with a corridor to the room before it. The centre of the
    /// last room becomes the way down.
    pub fn generate(new_depth: i32, rng: &mut rltk::RandomNumberGenerator) -> (map: TileMap)
        ensures
            map.is_generated(new_depth),
    {
        let mut map = TileMap::blank(new_depth);
        proof {
            assert forall|x: int, y: int| !#[trigger] map.open_at(x, y) by {
                if map.in_bounds(x, y) {
                    lemma_index_in_range(map.width as int, map.height as int, x, y);
                }
            }
            assert forall|x: int, y: int| map.in_bounds(x, y) implies #[trigger] map.tile(x, y)
                != TileType::DownStairs by {
                lemma_index_in_range(map.width as int, map.height as int, x, y);
            }
        }
        let mut attempt: i32 = 0;
        while attempt < MAX_ROOMS
            invariant
                0 <= attempt <= MAX_ROOMS,
                map.wf(),
                map.width == MAPWIDTH,
                map.height == MAPHEIGHT,
                map.depth == new_depth,
                map.rooms@.len() <= attempt,
                attempt > 0 ==> map.rooms@.len() >= 1,
                map.rooms_fit(),
                map.rooms_sized(),
                map.rooms_disjoint(),
                map.rooms_open(),
                map.corridors_open(),
                map.only_dug_open(),
                map.unexplored(),
                map.bloodstains@ == Set::<usize>::empty(),
                forall|x: int, y: int| map.in_bounds(x, y) ==> #[trigger] map.tile(x, y) != TileType::DownStairs,
                map.rooms@.len() == 0 ==> forall|x: int, y: int| !#[trigger] map.open_at(x, y),
                map.rooms@.len() > 0 ==> map.all_reachable_from(map.rooms@[0].center_spec()),
            decreases MAX_ROOMS - attempt,
        {
            let w = range(rng, MIN_SIZE, MAX_SIZE);
            let h = range(rng, MIN_SIZE, MAX_SIZE);
            let rolled_x = roll_dice(rng, 1, map.width - w - 1) - 1;
            let rolled_y = roll_dice(rng, 1, map.height - h - 1) - 1;
            let x = if rolled_x < 1 { 1 } else { rolled_x };
            let y = if rolled_y < 1 { 1 } else { rolled_y };
            let new_room = Rect::new(x, y, w, h);
            if map.room_is_free(&new_room) {
                let horizontal_first = if map.rooms.len() > 0 {
                    range(rng, 0, 2) == 1
                } else {
                    true
                };
                let ghost before = map;
                map.add_room(new_room, horizontal_first);
                proof {
                    crate::connectivity::lemma_add_room_keeps_reachable(&before, &map, new_room, horizontal_first);
                    assert forall|i: int| 0 <= i < map.rooms@.len() implies map.room_fits(
                        #[trigger] map.rooms@[i],
                    ) by {
                        if i < before.rooms@.len() {
                            assert(map.rooms@[i] == before.rooms@[i]);
                        }
                    }
                    assert(map.rooms_sized()) by {
                        assert forall|i: int| 0 <= i < map.rooms@.len() implies {
                            &&& MIN_SIZE <= (#[trigger] map.rooms@[i]).x2 - map.rooms@[i].x1 < MAX_SIZE
                            &&& MIN_SIZE <= map.rooms@[i].y2 - map.rooms@[i].y1 < MAX_SIZE
                        } by {
                            if i < before.rooms@.len() {
                                assert(map.rooms@[i] == before.rooms@[i]);
                            }
                        }
                    }
                    assert forall|i: int, j: int| 0 <= i < j < map.rooms@.len() implies !(#[trigger] map.rooms@[i]).overlaps(
                        #[trigger] map.rooms@[j],
                    ) by {
                        assert(map.rooms@[i] == before.rooms@[i]);
                        if j < before.rooms@.len() {
                            assert(map.rooms@[j] == before.rooms@[j]);
                        } else {
                            assert(!new_room.overlaps(before.rooms@[i]));
                        }
                    }
                    assert forall|px: int, py: int| map.in_bounds(px, py) implies #[trigger] map.tile(px, py)
                        != TileType::DownStairs by {
                        assert(before.tile(px, py) != TileType::DownStairs);
                    }
                    assert forall|k: int| 1 <= k < map.rooms@.len() implies #[trigger] map.corridor_open(k, true)
                        || map.corridor_open(k, false) by {
                        let n = before.rooms@.len() as int;
                        if k < n {
                            assert(map.rooms@[k] == before.rooms@[k]);
                            assert(map.rooms@[k - 1] == before.rooms@[k - 1]);
                            let b = before.corridor_open(k, true);
                            assert(before.corridor_open(k, b));
                            assert forall|x: int, y: int|
                                on_corridor(
                                    map.rooms@[k - 1].center_spec(),
                                    map.rooms@[k].center_spec(),
                                    b,
                                    x,
                                    y,
                                ) implies #[trigger] map.open_at(x, y) by {
                                assert(before.open_at(x, y));
                            }
                            assert(map.corridor_open(k, b));
                        } else {
                            assert(map.rooms@[k] == new_room);
                            assert(map.rooms@[k - 1] == before.rooms@.last());
                            assert(before.room_fits(before.rooms@.last()));
                            assert forall|x: int, y: int|
                                on_corridor(
                                    map.rooms@[k - 1].center_spec(),
                                    map.rooms@[k].center_spec(),
                                    horizontal_first,
                                    x,
                                    y,
                                ) implies #[trigger] map.open_at(x, y) by {
                                assert(carved_by(before.rooms@, new_room, horizontal_first, x, y));
                                assert(before.in_bounds(x, y));
                                let t = map.tile(x, y);
                            }
                            assert(map.corridor_open(k, horizontal_first));
                        }
                    }
                    assert forall|px: int, py: int| #[trigger] map.open_at(px, py) implies map.dug(px, py) by {
                        let n = before.rooms@.len() as int;
                        assert(map.rooms@[n] == new_room);
                        if before.open_at(px, py) {
                            assert(before.dug(px, py));
                            if exists|i: int| 0 <= i < n && (#[trigger] before.rooms@[i]).interior(px, py) {
                                let i = choose|i: int| 0 <= i < n && (#[trigger] before.rooms@[i]).interior(px, py);
                                assert(map.rooms@[i].interior(px, py));
                            } else {
                                let i = choose|i: int|
                                    1 <= i < n && corridor_between(
                                        before.rooms@[i - 1],
                                        #[trigger] before.rooms@[i],
                                        px,
                                        py,
                                    );
                                assert(map.rooms@[i - 1] == before.rooms@[i - 1]);
                                assert(corridor_between(map.rooms@[i - 1], map.rooms@[i], px, py));
                            }
                        } else {
                            assert(carved_by(before.rooms@, new_room, horizontal_first, px, py));
                            if new_room.interior(px, py) {
                                assert(map.rooms@[n].interior(px, py));
                            } else {
                                assert(map.rooms@[n - 1] == before.rooms@.last());
                                assert(corridor_between(map.rooms@[n - 1], map.rooms@[n], px, py));
                            }
                        }
                    }
                }
            }
            attempt = attempt + 1;
        }
        let ghost carved = map;
        map.place_stairs();
        proof {
            let last = carved.rooms@.last();
            let c = last.center_spec();
            assert(carved.room_fits(last));
            assert(last.interior(c.0, c.1));
            lemma_index_in_range(map.width as int, map.height as int, c.0, c.1);
            assert forall|px: int, py: int| map.in_bounds(px, py) implies (#[trigger] map.tile(px, py)
                == TileType::DownStairs <==> (px, py) == map.rooms@.last().center_spec()) by {
                lemma_index_in_range(map.width as int, map.height as int, px, py);
                assert(carved.tile(px, py) != TileType::DownStairs);
                if carved.index_of(px, py) == carved.index_of(c.0, c.1) {
                    assert(px == c.0 && py == c.1);
                }
            }
            assert forall|px: int, py: int| #[trigger] carved.open_at(px, py) <==> map.open_at(px, py) by {
                if map.in_bounds(px, py) {
                    lemma_index_in_range(map.width as int, map.height as int, px, py);
                    if carved.index_of(px, py) == carved.index_of(c.0, c.1) {
                        assert(px == c.0 && py == c.1);
                        assert(carved.open_at(c.0, c.1));
                    }
                }
            }
            assert(carved.opens_into(&map));
            assert forall|i: int, px: int, py: int|
                0 <= i < map.rooms@.len() && (#[trigger] map.rooms@[i]).interior(px, py) implies #[trigger] map.open_at(
                px,
                py,
            ) by {
                assert(carved.open_at(px, py));
            }
            assert forall|px: int, py: int| #[trigger] map.open_at(px, py) implies map.dug(px, py) by {
                assert(carved.open_at(px, py));
                assert(carved.dug(px, py));
            }
            assert forall|k: int| 1 <= k < map.rooms@.len() implies #[trigger] map.corridor_open(k, true)
                || map.corridor_open(k, false) by {
                let b = carved.corridor_open(k, true);
                assert(carved.corridor_open(k, b));
                assert forall|x: int, y: int|
                    on_corridor(map.rooms@[k - 1].center_spec(), map.rooms@[k].center_spec(), b, x, y) implies #[trigger] map.open_at(
                    x,
                    y,
                ) by {
                    assert(carved.open_at(x, y));
                }
                assert(map.corridor_open(k, b));
            }
            let origin = map.rooms@[0].center_spec();
            assert forall|px: int, py: int| #[trigger] map.open_at(px, py) implies map.connected(origin, (px, py)) by {
                assert(carved.open_at(px, py));
                assert(carved.connected(origin, (px, py)));
                crate::connectivity::lemma_connected_grows(&carved, &map, origin, (px, py));
            }
        }
        map
    }

    /// Builds a level of the given depth from a freshly seeded random source.
    pub fn new_map_rooms_and_corridors(new_depth: i32) -> (map: TileMap)
        ensures
            map.is_generated(new_depth),
    {
        let mut rng = new_rng();
        TileMap::generate(new_depth, &mut rng)
    }

    /// A tile that can be stepped on: on the grid but not on its outermost
    /// ring, and not blocked.
    pub open spec fn exit_valid(&self, x: int, y: int) -> bool {
        1 <= x <= self.width - 2 && 1 <= y <= self.height - 2 && !self.blocked@[self.index_of(x, y)]
    }

    /// The exits of the tile `idx` among its first `k` neighbours, in the
    /// order of `neighbour`, each with its cost in hundredths of a step.
    pub open spec fn exits_among(&self, idx: int, k: int) -> Seq<(usize, u32)>
        decreases k,
    {
        if k <= 0 {
            Seq::empty()
        } else {
            let before = self.exits_among(idx, k - 1);
            let n = neighbour(k - 1);
            let x = idx % (self.width as int) + n.0;
            let y = idx / (self.width as int) + n.1;
            if self.exit_valid(x, y) {
                before.push((self.index_of(x, y) as usize, n.2))
            } else {
                before
            }
        }
    }

    /// The exits of the tile `idx`: its valid neighbours, the four
    /// orthogonal ones first, then the four diagonal ones.
    pub open spec fn exits(&self, idx: int) -> Seq<(usize, u32)> {
        self.exits_among(idx, 8)
    }

    /// Whether the tile `(x, y)` can be stepped on.
    pub fn is_exit_valid(&self, x: i32, y: i32) -> (valid: bool)
        requires
            self.wf(),
        ensures
            valid == self.exit_valid(x as int, y as int),
    {
        if x < 1 || x > self.width - 2 || y < 1 || y > self.height - 2 {
            return false;
        }
        let idx = self.xy_idx(x, y);
        !self.blocked[idx]
    }

    /// Appends the tile `(x, y)` with `cost` to `exits` if it can be stepped on.
    fn push_exit(&self, exits: &mut Vec<(usize, u32)>, x: i32, y: i32, cost: u32)
        requires
            self.wf(),
        ensures
            final(exits)@ == if self.exit_valid(x as int, y as int) {
                old(exits)@.push((self.index_of(x as int, y as int) as usize, cost))
            } else {
                old(exits)@
            },
    {
        if self.is_exit_valid(x, y) {
            let to = self.xy_idx(x, y);
            exits.push((to, cost));
        }
    }

    /// The tiles that can be entered from the tile `idx` in one step, each
    /// with the cost of the step in hundredths: `ORTHOGONAL_COST` along a row
    /// or column, `DIAGONAL_COST` across a corner.
    pub fn get_available_exits(&self, idx: usize) -> (exits: Vec<(usize, u32)>)
        requires
            self.wf(),
            idx < self.count(),
        ensures
            exits@ == self.exits(idx as int),
    {
        proof {
            lemma_coords_in_range(self.width as int, self.height as int, idx as int);
            reveal_with_fuel(TileMap::exits_among, 9);
        }
        let mut exits: Vec<(usize, u32)> = Vec::new();
        let x: i32 = (idx % self.width as usize) as i32;
        let y: i32 = (idx / self.width as usize) as i32;
        self.push_exit(&mut exits, x - 1, y, ORTHOGONAL_COST);
        self.push_exit(&mut exits, x + 1, y, ORTHOGONAL_COST);
        self.push_exit(&mut exits, x, y - 1, ORTHOGONAL_COST);
        self.push_exit(&mut exits, x, y + 1, ORTHOGONAL_COST);
        self.push_exit(&mut exits, x - 1, y - 1, DIAGONAL_COST);
        self.push_exit(&mut exits, x + 1, y - 1, DIAGONAL_COST);
        self.push_exit(&mut exits, x - 1, y + 1, DIAGONAL_COST);
        self.push_exit(&mut exits, x + 1, y + 1, DIAGONAL_COST);
        exits
    }

    /// The square of the straight-line distance between two tiles.
    pub open spec fn distance_squared(&self, idx1: int, idx2: int) -> int {
        let w = self.width as int;
        let dx = idx1 % w - idx2 % w;
        let dy = idx1 / w - idx2 / w;
        dx * dx + dy * dy
    }

    /// The square of the straight-line distance between the tiles `idx1` and
    /// `idx2`; its root is the distance that path search goes by.
    pub fn get_pathing_distance_squared(&self, idx1: usize, idx2: usize) -> (d: i64)
        requires
            self.wf(),
            idx1 < self.count(),
            idx2 < self.count(),
        ensures
            d == self.distance_squared(idx1 as int, idx2 as int),
    {
        proof {
            lemma_coords_in_range(self.width as int, self.height as int, idx1 as int);
            lemma_coords_in_range(self.width as int, self.height as int, idx2 as int);
        }
        let w = self.width as usize;
        let dx: i64 = (idx1 % w) as i64 - (idx2 % w) as i64;
        let dy: i64 = (idx1 / w) as i64 - (idx2 / w) as i64;
        assert(dx * dx + dy * dy <= 0x7fff_ffff_ffff_ffff) by (nonlinear_arith)
            requires
                -0x8000_0000 < dx < 0x8000_0000,
                -0x8000_0000 < dy < 0x8000_0000,
        ;
        assert(0 <= dx * dx) by (nonlinear_arith);
        assert(0 <= dy * dy) by (nonlinear_arith);
        assert(dx * dx <= 0x4000_0000_0000_0000) by (nonlinear_arith)
            requires
                -0x8000_0000 < dx < 0x8000_0000,
        ;
        dx * dx + dy * dy
    }

    /// Which tiles block sight, tile by tile.
    pub open spec fn opacity(&self) -> Seq<bool> {
        Seq::new(self.tiles@.len(), |i: int| self.tiles@[i] == TileType::Wall)
    }

    /// Recomputes `blocked` from the tiles alone: a tile blocks when it is a wall.
    pub fn populate_blocked(&mut self)
        requires
            old(self).wf(),
        ensures
            *final(self) == (TileMap { blocked: final(self).blocked, ..*old(self) }),
            final(self).blocked@.len() == old(self).blocked@.len(),
            forall|i: int|
                0 <= i < final(self).blocked@.len() ==> final(self).blocked@[i] == (old(self).tiles@[i]
                    == TileType::Wall),
    {
        let ghost before = *self;
        let mut i: usize = 0;
        while i < self.tiles.len()
            invariant
                before.wf(),
                *self == (TileMap { blocked: self.blocked, ..before }),
                self.blocked@.len() == before.blocked@.len(),
                0 <= i <= self.tiles@.len(),
                forall|j: int| 0 <= j < i ==> self.blocked@[j] == (before.tiles@[j] == TileType::Wall),
            decreases self.tiles@.len() - i,
        {
            let wall = self.tiles[i] == TileType::Wall;
            self.blocked[i] = wall;
            i = i + 1;
        }
    }

    /// Empties the occupant list of every tile.
    pub fn clear_content_index(&mut self)
        requires
            old(self).wf(),
        ensures
            *final(self) == (TileMap { tile_content: final(self).tile_content, ..*old(self) }),
            final(self).tile_content@.len() == old(self).tile_content@.len(),
            forall|i: int| 0 <= i < final(self).tile_content@.len() ==> final(self).tile_content@[i]@.len() == 0,
    {
        let ghost before = *self;
        let mut i: usize = 0;
        while i < self.tile_content.len()
            invariant
                *self == (TileMap { tile_content: self.tile_content, ..before }),
                self.tile_content@.len() == before.tile_content@.len(),
                0 <= i <= self.tile_content@.len(),
                forall|j: int| 0 <= j < i ==> self.tile_content@[j]@.len() == 0,
            decreases self.tile_content@.len() - i,
        {
            self.tile_content[i].clear();
            i = i + 1;
        }
    }
}

/// Glyph of a tile that has not been revealed.
pub const GLYPH_UNSEEN: u16 = 32;

/// Glyph of a floor tile.
pub const GLYPH_FLOOR: u16 = 128;

/// Glyph of the way down.
pub const GLYPH_STAIRS: u16 = 177;

/// The glyph of a wall by the walls around it. `mask` holds 1 for a wall to
/// the north, 2 to the south, 4 to the west and 8 to the east; for a wall
/// surrounded on all four sides, `corners` tells which diagonal neighbour is
/// floor: 1, 2, 4 or 8 for exactly one of them.
pub open spec fn glyph_for_mask(mask: int, corners: int) -> u16 {
    if mask == 0 {
        0
    } else if mask == 1 {
        112
    } else if mask == 2 {
        0
    } else if mask == 3 {
        48
    } else if mask == 4 {
        114
    } else if mask == 5 {
        115
    } else if mask == 6 {
        35
    } else if mask == 7 {
        51
    } else if mask == 8 {
        114
    } else if mask == 9 {
        113
    } else if mask == 10 {
        33
    } else if mask == 11 {
        65
    } else if mask == 12 {
        114
    } else if mask == 13 {
        114
    } else if mask == 14 {
        34
    } else if mask == 15 {
        if corners == 1 {
            90
        } else if corners == 2 {
            43
        } else if corners == 4 {
            45
        } else if corners == 8 {
            49
        } else {
            82
        }
    } else {
        35
    }
}

/// `weight` if `b` holds, and else 0.
pub open spec fn bit(b: bool, weight: int) -> int {
    if b {
        weight
    } else {
        0
    }
}

impl TileMap {
    /// The tile `(x, y)` counts as wall for drawing: it is a wall, or it lies
    /// on the outermost ring of the grid or beyond.
    pub open spec fn wall_at(&self, x: int, y: int) -> bool {
        x < 1 || x > self.width - 2 || y < 1 || y > self.height - 2 || self.tile(x, y) == TileType::Wall
    }

    /// The tile `(x, y)` lies inside the outermost ring and is floor.
    pub open spec fn floor_at(&self, x: int, y: int) -> bool {
        1 <= x <= self.width - 2 && 1 <= y <= self.height - 2 && self.tile(x, y) == TileType::Floor
    }

    /// Which of the four neighbours of `(x, y)` count as wall: 1 for north, 2
    /// for south, 4 for west, 8 for east, added up.
    pub open spec fn wall_mask(&self, x: int, y: int) -> int {
        bit(self.wall_at(x, y - 1), 1) + bit(self.wall_at(x, y + 1), 2) + bit(self.wall_at(x - 1, y), 4) + bit(
            self.wall_at(x + 1, y),
            8,
        )
    }

    /// Which of the four diagonal neighbours of `(x, y)` are floor: 1 for
    /// `(x + 1, y + 1)`, 2 for `(x + 1, y - 1)`, 4 for `(x - 1, y - 1)`, 8 for
    /// `(x - 1, y + 1)`, added up.
    pub open spec fn corner_mask(&self, x: int, y: int) -> int {
        bit(self.floor_at(x + 1, y + 1), 1) + bit(self.floor_at(x + 1, y - 1), 2) + bit(
            self.floor_at(x - 1, y - 1),
            4,
        ) + bit(self.floor_at(x - 1, y + 1), 8)
    }

    /// The glyph that the wall at `(x, y)` is drawn with.
    pub open spec fn wall_glyph(&self, x: int, y: int) -> u16 {
        glyph_for_mask(self.wall_mask(x, y), self.corner_mask(x, y))
    }

    /// The glyph that the tile `idx` is drawn with.
    pub open spec fn glyph_at(&self, idx: int) -> u16 {
        if !self.revealed_tiles@[idx] {
            GLYPH_UNSEEN
        } else {
            match self.tiles@[idx] {
                TileType::Floor => GLYPH_FLOOR,
                TileType::Wall => self.wall_glyph(idx % (self.width as int), idx / (self.width as int)),
                TileType::DownStairs => GLYPH_STAIRS,
            }
        }
    }

    /// The glyph that the tile `idx` is drawn with: blank while unrevealed,
    /// then by the kind of tile, a wall by the walls around it.
    pub fn tile_glyph(&self, idx: usize) -> (glyph: u16)
        requires
            self.wf(),
            idx < self.count(),
        ensures
            glyph == self.glyph_at(idx as int),
    {
        if !self.revealed_tiles[idx] {
            return GLYPH_UNSEEN;
        }
        match self.tiles[idx] {
            TileType::Floor => GLYPH_FLOOR,
            TileType::Wall => {
                proof {
                    lemma_coords_in_range(self.width as int, self.height as int, idx as int);
                }
                let x: i32 = (idx % self.width as usize) as i32;
                let y: i32 = (idx / self.width as usize) as i32;
                tilemap_wall_glyph(self, x, y)
            },
            TileType::DownStairs => GLYPH_STAIRS,
        }
    }
}

/// Whether the tile `(x, y)` counts as wall for drawing.
pub fn is_wall(map: &TileMap, x: i32, y: i32) -> (wall: bool)
    requires
        map.wf(),
    ensures
        wall == map.wall_at(x as int, y as int),
{
    if x < 1 || x > map.width - 2 || y < 1 || y > map.height - 2 {
        return true;
    }
    let idx = map.xy_idx(x, y);
    map.tiles[idx] == TileType::Wall
}

/// Whether the tile `(x, y)` lies inside the outermost ring and is floor.
pub fn is_floor(map: &TileMap, x: i32, y: i32) -> (floor: bool)
    requires
        map.wf(),
    ensures
        floor == map.floor_at(x as int, y as int),
{
    if x < 1 || x > map.width - 2 || y < 1 || y > map.height - 2 {
        return false;
    }
    let idx = map.xy_idx(x, y);
    map.tiles[idx] == TileType::Floor
}

/// The glyph that the wall at `(x, y)` is drawn with, chosen by the walls to
/// its north, south, west and east.
pub fn tilemap_wall_glyph(map: &TileMap, x: i32, y: i32) -> (glyph: u16)
    requires
        map.wf(),
        i32::MIN < x < i32::MAX,
        i32::MIN < y < i32::MAX,
    ensures
        glyph == map.wall_glyph(x as int, y as int),
{
    let mut mask: u8 = 0;
    if is_wall(map, x, y - 1) {
        mask += 1;
    }
    if is_wall(map, x, y + 1) {
        mask += 2;
    }
    if is_wall(map, x - 1, y) {
        mask += 4;
    }
    if is_wall(map, x + 1, y) {
        mask += 8;
    }
    match mask {
        0 => 0,
        1 => 112,
        2 => 0,
        3 => 48,
        4 => 114,
        5 => 115,
        6 => 35,
        7 => 51,
        8 => 114,
        9 => 113,
        10 => 33,
        11 => 65,
        12 => 114,
        13 => 114,
        14 => 34,
        15 => {
            let mut floor_mask: u8 = 0;
            if is_floor(map, x + 1, y + 1) {
                floor_mask += 1
            }
            if is_floor(map, x + 1, y - 1) {
                floor_mask += 2
            }
            if is_floor(map, x - 1, y - 1) {
                floor_mask += 4
            }
            if is_floor(map, x - 1, y + 1) {
                floor_mask += 8
            }
            match floor_mask {
                0 => 82,
                1 => 90,
                2 => 43,
                4 => 45,
                8 => 49,
                _ => 82,
            }
        },
        _ => 35,
    }
}

#[verifier::external_type_specification]
pub struct ExPoint(rltk::Point);

/// What `rltk`'s sight algorithm asks of a map.
impl rltk::BaseMap for TileMap {
    /// Whether the tile at `idx` blocks sight: walls do. An index outside the
    /// grid counts as opaque.
    fn is_opaque(&self, idx: usize) -> (b: bool)
        ensures
            b == (idx >= self.tiles@.len() || self.tiles@[idx as int] == TileType::Wall),
    {
        idx >= self.tiles.len() || self.tiles[idx] == TileType::Wall
    }
}

impl rltk::Algorithm2D for TileMap {
    /// The size of the grid as a point: width, then height.
    fn dimensions(&self) -> (size: rltk::Point)
        ensures
            size.x == self.width,
            size.y == self.height,
    {
        rltk::Point { x: self.width, y: self.height }
    }
}

} // verus!
