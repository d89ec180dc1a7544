use crate::components::{MobType, Position};
use crate::tiles::{TileType, TileTypeMap};
use rand::{Rng, SeedableRng};
use vstd::prelude::*;

verus! {

/// The largest width or height of a level.
pub const MAX_SIDE: usize = 16384;

/// The largest coordinate that sight tests take; beyond it a light level
/// would no longer fit an `i32`.
pub const MAX_COORD: i64 = 536870912;

#[verifier::external_type_specification]
#[verifier::external_body]
pub struct ExStdRng(rand::rngs::StdRng);

/// Relies on rand's `SeedableRng::seed_from_u64` for `StdRng`: a generator
/// whose draws depend on the seed alone.
#[verifier::external_body]
fn seeded_rng(seed: u64) -> (r: rand::rngs::StdRng) {
    rand::rngs::StdRng::seed_from_u64(seed)
}

/// Relies on rand's `Rng::gen_range` (rand 0.8) over `lo..hi`: a value in that
/// range; it panics on an empty range, which `requires` leaves out.
#[verifier::external_body]
fn draw_in(rng: &mut rand::rngs::StdRng, lo: usize, hi: usize) -> (r: usize)
    requires
        lo < hi,
    ensures
        lo <= r < hi,
{
    rng.gen_range(lo..hi)
}

#[verifier::external_type_specification]
#[verifier::external_body]
pub struct ExAnyhowError(anyhow::Error);

/// The largest width or height that the room generator is asked for.
pub const GEN_MAX_SIDE: usize = 1024;

/// The cells that map_gen_2d's BSP generator lays out for these arguments:
/// `true` for a wall, `false` for a floor. Cells it leaves out are absent.
pub uninterp spec fn bsp_layout(
    width: int,
    height: int,
    seed: int,
    min_w: int,
    min_h: int,
    max_w: int,
    max_h: int,
) -> Map<(int, int), bool>;

/// The arguments that map_gen_2d's BSP generator accepts.
pub open spec fn bsp_accepts(width: int, height: int, min_room: (int, int), max_room: (int, int)) -> bool {
    &&& 20 <= width
    &&& 20 <= height
    &&& min_room.0 < max_room.0
    &&& min_room.1 < max_room.1
    &&& max_room.0 < width
    &&& max_room.1 < height
}

/// `cells` lists each cell of `layout` once, with its kind.
pub open spec fn lists_layout(cells: Seq<(usize, usize, bool)>, layout: Map<(int, int), bool>) -> bool {
    &&& forall|i: int|
        0 <= i < cells.len() ==> #[trigger] layout.contains_key((cells[i].0 as int, cells[i].1 as int))
            && layout[(cells[i].0 as int, cells[i].1 as int)] == cells[i].2
    &&& forall|p: (int, int)|
        #[trigger] layout.contains_key(p) ==> exists|i: int|
            0 <= i < cells.len() && #[trigger] cells[i].0 as int == p.0 && cells[i].1 as int == p.1
    &&& forall|i: int, j: int|
        0 <= i < j < cells.len() ==> (cells[i].0, cells[i].1) != (cells[j].0, cells[j].1)
}

/// Relies on map_gen_2d 0.1.15: `BSPMap::new`, driven by a `StdRng` seeded
/// with `seed`, then `get_tiles`, whose map is listed entry by entry. The
/// generator refuses exactly the arguments that `bsp_accepts` leaves out;
/// `requires` leaves out those on which it panics (an empty split range) or
/// never stops splitting (a zero room size), and keeps the recursion shallow.
#[verifier::external_body]
fn bsp_tiles(width: usize, height: usize, seed: u64, min_room: (usize, usize), max_room: (usize, usize)) -> (r: Result<Vec<(usize, usize, bool)>, anyhow::Error>)
    requires
        width <= GEN_MAX_SIDE,
        height <= GEN_MAX_SIDE,
        1 <= min_room.0,
        1 <= min_room.1,
        min_room.0 <= max_room.1,
    ensures
        r is Ok <==> bsp_accepts(width as int, height as int, (min_room.0 as int, min_room.1 as int), (max_room.0 as int, max_room.1 as int)),
        r matches Ok(v) ==> lists_layout(v@, bsp_layout(width as int, height as int, seed as int, min_room.0 as int, min_room.1 as int, max_room.0 as int, max_room.1 as int)),
{
    map_gen_2d::bsp::BSPMap::new(
        map_gen_2d::Point::new(width, height),
        rand::rngs::StdRng::seed_from_u64(seed),
        map_gen_2d::Point::new(min_room.0, min_room.1),
        map_gen_2d::Point::new(max_room.0, max_room.1),
    ).map(|m| m.get_tiles().iter().map(|(p, t)| (p.x, p.y, match t {
        map_gen_2d::Tile::Wall => true,
        map_gen_2d::Tile::Floor => false,
    })).collect())
}

/// Some entry of `cells` marks the cell `p` as floor.
pub open spec fn marks_floor(cells: Seq<(usize, usize, bool)>, p: (int, int)) -> bool {
    exists|i: int| 0 <= i < cells.len() && #[trigger] cells[i].0 as int == p.0 && cells[i].1 as int == p.1 && !cells[i].2
}

/// The kind that generation gives cell `p`: floor where the BSP layout has
/// a floor, wall everywhere else.
pub open spec fn generated_tile(
    width: int,
    height: int,
    seed: int,
    min_room: (int, int),
    max_room: (int, int),
    p: (int, int),
) -> TileType {
    let m = bsp_layout(width, height, seed, min_room.0, min_room.1, max_room.0, max_room.1);
    if m.contains_key(p) && !m[p] {
        TileType::FLOOR
    } else {
        TileType::WALL
    }
}

/// The arguments for which generation builds a level: rooms at least one
/// cell wide that fit the grid, and sides of at most `GEN_MAX_SIDE`.
pub open spec fn generation_accepts(width: int, height: int, min_room: (int, int), max_room: (int, int)) -> bool {
    &&& 1 <= min_room.0
    &&& 1 <= min_room.1
    &&& min_room.0 <= max_room.1
    &&& width <= GEN_MAX_SIDE
    &&& height <= GEN_MAX_SIDE
    &&& bsp_accepts(width, height, min_room, max_room)
}

/// How many random cells a placement draws before it scans for a floor cell instead.
pub const MAX_DRAWS: usize = 4096;

/// The kinds of actor that placement requests ask for, in order: each kind
/// repeated as often as its request says.
pub open spec fn expand(requests: Seq<(MobType, usize)>) -> Seq<MobType>
    decreases requests.len(),
{
    if requests.len() == 0 {
        Seq::empty()
    } else {
        let last = requests.last();
        expand(requests.drop_last()) + Seq::new(last.1 as nat, |_i: int| last.0)
    }
}

/// Generation gives cell `p`, off the first row and column, a floor.
pub open spec fn generated_spawn(
    width: int,
    height: int,
    seed: int,
    min_room: (int, int),
    max_room: (int, int),
    p: (int, int),
) -> bool {
    1 <= p.0 < width && 1 <= p.1 < height && generated_tile(width, height, seed, min_room, max_room, p)
        == TileType::FLOOR
}

/// Fewer than `n` cells hold every cell that `generated_spawn` admits.
pub open spec fn generated_spawn_fewer_than(
    width: int,
    height: int,
    seed: int,
    min_room: (int, int),
    max_room: (int, int),
    n: int,
) -> bool {
    exists|cells: Seq<(int, int)>|
        cells.len() < n && forall|p: (int, int)|
            generated_spawn(width, height, seed, min_room, max_room, p) ==> cells.contains(p)
}

/// Why a level could not be built.
#[derive(PartialEq, Eq, Structural, Copy, Clone, Debug)]
pub enum ConfigurationError {
    /// The dimensions or the room size bounds do not fit together.
    RoomsDoNotFit,
    /// No floor cell is left on which an actor could be placed.
    NoFloorForActor,
}

/// One level: a static grid of walls and floors, the ledger of every cell
/// that has ever been revealed, the level's random source, and where the
/// actors were placed.
pub struct Level {
    /// Row-major: the cell at (x, y) is at index `y * width + x`.
    pub tiles: Vec<TileTypeMap>,
    /// (width, height).
    pub size: (usize, usize),
    /// Row-major like `tiles`: whether the cell has ever been revealed.
    pub revealed_tiles: Vec<bool>,
    pub rng: rand::rngs::StdRng,
    /// Actors placed on the level, in order of placement.
    pub mobs: Vec<(Position, MobType)>,
}

impl Level {
    pub open spec fn width(self) -> int {
        self.size.0 as int
    }

    pub open spec fn height(self) -> int {
        self.size.1 as int
    }

    pub open spec fn in_bounds(self, p: (int, int)) -> bool {
        0 <= p.0 < self.width() && 0 <= p.1 < self.height()
    }

    pub open spec fn index_of(self, p: (int, int)) -> int {
        p.1 * self.width() + p.0
    }

    /// The kind of an in-bounds cell.
    pub open spec fn tile_at(self, p: (int, int)) -> TileType {
        self.tiles@[self.index_of(p)].0
    }

    pub open spec fn is_wall(self, p: (int, int)) -> bool {
        self.in_bounds(p) && self.tile_at(p) == TileType::WALL
    }

    /// A cell that nothing can enter: a wall, or a cell outside the grid.
    pub open spec fn blocks(self, p: (int, int)) -> bool {
        !self.in_bounds(p) || self.tile_at(p) == TileType::WALL
    }

    /// The cells that have ever been revealed.
    pub open spec fn revealed(self) -> Set<(int, int)> {
        Set::new(|p: (int, int)| self.in_bounds(p) && self.revealed_tiles@[self.index_of(p)])
    }

    pub open spec fn wf(self) -> bool {
        &&& 0 < self.size.0 <= MAX_SIDE
        &&& 0 < self.size.1 <= MAX_SIDE
        &&& self.tiles@.len() == self.width() * self.height()
        &&& self.revealed_tiles@.len() == self.width() * self.height()
    }

    /// Every cell of a well-formed level has its own index in the row-major vectors.
    pub proof fn lemma_index(self, p: (int, int))
        requires
            self.wf(),
            self.in_bounds(p),
        ensures
            0 <= self.index_of(p) < self.width() * self.height(),
            self.index_of(p) < MAX_SIDE * MAX_SIDE,
    {
        let w = self.width();
        let h = self.height();
        assert(0 <= p.1 * w + p.0 < w * h) by (nonlinear_arith)
            requires
                0 <= p.0 < w,
                0 <= p.1 < h,
        ;
        assert(w * h <= MAX_SIDE * MAX_SIDE) by (nonlinear_arith)
            requires
                0 < w <= MAX_SIDE,
                0 < h <= MAX_SIDE,
        ;
    }

    /// Two distinct cells never share an index.
    pub proof fn lemma_index_injective(self, p: (int, int), q: (int, int))
        requires
            self.wf(),
            self.in_bounds(p),
            self.in_bounds(q),
            p != q,
        ensures
            self.index_of(p) != self.index_of(q),
    {
        let w = self.width();
        if p.1 == q.1 {
        } else if p.1 < q.1 {
            assert(p.1 * w + p.0 < q.1 * w + q.0) by (nonlinear_arith)
                requires
                    0 <= p.0 < w,
                    0 <= q.0 < w,
                    p.1 < q.1,
            ;
        } else {
            assert(q.1 * w + q.0 < p.1 * w + p.0) by (nonlinear_arith)
                requires
                    0 <= p.0 < w,
                    0 <= q.0 < w,
                    q.1 < p.1,
            ;
        }
    }

    /// The row-major index of an in-bounds cell.
    fn index(&self, x: usize, y: usize) -> (r: usize)
        requires
            self.wf(),
            self.in_bounds((x as int, y as int)),
        ensures
            r as int == self.index_of((x as int, y as int)),
            r < self.tiles.len(),
    {
        proof {
            self.lemma_index((x as int, y as int));
        }
        y * self.size.0 + x
    }

    /// Whether the in-bounds cell at (x, y) is a wall.
    pub(crate) fn wall_at(&self, x: i64, y: i64) -> (r: bool)
        requires
            self.wf(),
            self.in_bounds((x as int, y as int)),
        ensures
            r == self.is_wall((x as int, y as int)),
    {
        let i = self.index(x as usize, y as usize);
        self.tiles[i].0.is_wall()
    }

    /// Whether the cell at (x, y) is a wall; no cell off the grid is.
    pub(crate) fn wall_cell(&self, x: i64, y: i64) -> (r: bool)
        requires
            self.wf(),
        ensures
            r == self.is_wall((x as int, y as int)),
    {
        if x < 0 || y < 0 || x >= self.size.0 as i64 || y >= self.size.1 as i64 {
            return false;
        }
        self.wall_at(x, y)
    }

    /// The kind of the cell at `p`, or `None` where `p` lies outside the grid.
    pub fn tile_kind(&self, p: Position) -> (r: Option<TileType>)
        requires
            self.wf(),
        ensures
            r == (if self.in_bounds(p@) {
                Some(self.tile_at(p@))
            } else {
                None::<TileType>
            }),
    {
        if p.x < 0 || p.y < 0 || p.x as usize >= self.size.0 || p.y as usize >= self.size.1 {
            return None;
        }
        let i = self.index(p.x as usize, p.y as usize);
        Some(self.tiles[i].0)
    }

    /// Whether the cell at `p` has ever been revealed.
    pub fn is_ever_revealed(&self, p: Position) -> (r: bool)
        requires
            self.wf(),
        ensures
            r == self.revealed().contains(p@),
    {
        if p.x < 0 || p.y < 0 || p.x as usize >= self.size.0 || p.y as usize >= self.size.1 {
            return false;
        }
        let i = self.index(p.x as usize, p.y as usize);
        self.revealed_tiles[i]
    }

    /// Adds an in-bounds cell to the ledger; says whether it was absent before.
    pub(crate) fn mark_revealed(&mut self, x: usize, y: usize) -> (r: bool)
        requires
            old(self).wf(),
            old(self).in_bounds((x as int, y as int)),
        ensures
            final(self).wf(),
            final(self).tiles == old(self).tiles,
            final(self).size == old(self).size,
            final(self).mobs == old(self).mobs,
            final(self).revealed() == old(self).revealed().insert((x as int, y as int)),
            r == !old(self).revealed().contains((x as int, y as int)),
    {
        let i = self.index(x, y);
        let was = self.revealed_tiles[i];
        self.revealed_tiles.set(i, true);
        proof {
            let p = (x as int, y as int);
            assert forall|q: (int, int)| #[trigger]
                self.revealed().contains(q) == old(self).revealed().insert(p).contains(q) by {
                if self.in_bounds(q) && q != p {
                    self.lemma_index(q);
                    self.lemma_index_injective(q, p);
                }
            }
            assert(self.revealed() =~= old(self).revealed().insert(p));
        }
        !was
    }

    /// A level of the given size whose floor cells are those that some entry
    /// of `cells` marks as floor; every other cell is a wall, and entries
    /// outside the grid are ignored. Nothing is revealed and nobody is placed.
    pub fn from_layout(width: usize, height: usize, cells: &Vec<(usize, usize, bool)>, seed: u64) -> (r: Result<Level, ConfigurationError>)
        ensures
            r is Err <==> !(0 < width <= MAX_SIDE && 0 < height <= MAX_SIDE),
            r matches Err(e) ==> e == ConfigurationError::RoomsDoNotFit,
            r matches Ok(l) ==> {
                &&& l.wf()
                &&& l.size == (width, height)
                &&& forall|p: (int, int)| l.in_bounds(p) ==> #[trigger] l.tile_at(p) == if marks_floor(cells@, p) {
                    TileType::FLOOR
                } else {
                    TileType::WALL
                }
                &&& l.revealed() == Set::<(int, int)>::empty()
                &&& l.mobs@ == Seq::<(Position, MobType)>::empty()
            },
    {
        if width == 0 || height == 0 || width > MAX_SIDE || height > MAX_SIDE {
            return Err(ConfigurationError::RoomsDoNotFit);
        }
        proof {
            assert(width * height <= MAX_SIDE * MAX_SIDE) by (nonlinear_arith)
                requires
                    0 < width <= MAX_SIDE,
                    0 < height <= MAX_SIDE,
            ;
        }
        let n = width * height;
        let mut tiles: Vec<TileTypeMap> = Vec::new();
        let mut revealed_tiles: Vec<bool> = Vec::new();
        let mut i: usize = 0;
        while i < n
            invariant
                i <= n,
                tiles@.len() == i,
                revealed_tiles@.len() == i,
                forall|k: int| 0 <= k < i ==> #[trigger] tiles@[k].0 == TileType::WALL,
                forall|k: int| 0 <= k < i ==> !#[trigger] revealed_tiles@[k],
            decreases n - i,
        {
            tiles.push(TileTypeMap(TileType::WALL));
            revealed_tiles.push(false);
            i = i + 1;
        }
        let mut level = Level {
            tiles,
            size: (width, height),
            revealed_tiles,
            rng: seeded_rng(seed),
            mobs: Vec::new(),
        };
        let mut j: usize = 0;
        proof {
            assert forall|p: (int, int)| level.in_bounds(p) implies #[trigger] level.tile_at(p) == if marks_floor(cells@.take(0), p) {
                TileType::FLOOR
            } else {
                TileType::WALL
            } by {
                level.lemma_index(p);
            }
        }
        while j < cells.len()
            invariant
                level.wf(),
                level.size == (width, height),
                level.mobs@ == Seq::<(Position, MobType)>::empty(),
                n == width * height,
                forall|k: int| 0 <= k < n ==> !#[trigger] level.revealed_tiles@[k],
                j <= cells@.len(),
                forall|p: (int, int)| level.in_bounds(p) ==> #[trigger] level.tile_at(p) == if marks_floor(cells@.take(j as int), p) {
                    TileType::FLOOR
                } else {
                    TileType::WALL
                },
            decreases cells@.len() - j,
        {
            let (x, y, wall) = cells[j];
            let ghost before = level;
            if !wall && x < width && y < height {
                let k = level.index(x, y);
                level.tiles.set(k, TileTypeMap(TileType::FLOOR));
            }
            proof {
                let c = (x as int, y as int);
                assert(cells@.take(j + 1) =~= cells@.take(j as int).push(cells@[j as int]));
                assert forall|p: (int, int)| level.in_bounds(p) implies #[trigger] level.tile_at(p) == if marks_floor(cells@.take(j + 1), p) {
                    TileType::FLOOR
                } else {
                    TileType::WALL
                } by {
                    let s0 = cells@.take(j as int);
                    let s1 = cells@.take(j + 1);
                    if marks_floor(s0, p) {
                        let w = choose|w: int| 0 <= w < s0.len() && #[trigger] s0[w].0 as int == p.0 && s0[w].1 as int == p.1 && !s0[w].2;
                        assert(s1[w] == s0[w]);
                    }
                    if p == c && !wall {
                        assert(s1[j as int] == cells@[j as int]);
                    }
                    if marks_floor(s1, p) && !marks_floor(s0, p) {
                        let w = choose|w: int| 0 <= w < s1.len() && #[trigger] s1[w].0 as int == p.0 && s1[w].1 as int == p.1 && !s1[w].2;
                        if w < j {
                            assert(s0[w] == s1[w]);
                        }
                    }
                    if p != c && before.in_bounds(c) {
                        before.lemma_index(p);
                        before.lemma_index_injective(p, c);
                    }
                }
            }
            j = j + 1;
        }
        proof {
            assert(cells@.take(cells@.len() as int) =~= cells@);
            assert forall|p: (int, int)| !level.revealed().contains(p) by {
                if level.in_bounds(p) {
                    level.lemma_index(p);
                }
            }
            assert(level.revealed() =~= Set::<(int, int)>::empty());
        }
        Ok(level)
    }

    /// Builds a level with map_gen_2d's BSP room-and-corridor generator. The
    /// same arguments always give the same level.
    pub fn generate(width: usize, height: usize, seed: u64, min_room: (usize, usize), max_room: (usize, usize)) -> (r: Result<Level, ConfigurationError>)
        ensures
            r is Ok <==> generation_accepts(width as int, height as int, (min_room.0 as int, min_room.1 as int), (max_room.0 as int, max_room.1 as int)),
            r matches Err(e) ==> e == ConfigurationError::RoomsDoNotFit,
            r matches Ok(l) ==> {
                &&& l.wf()
                &&& l.size == (width, height)
                &&& forall|p: (int, int)| l.in_bounds(p) ==> #[trigger] l.tile_at(p) == generated_tile(
                    width as int,
                    height as int,
                    seed as int,
                    (min_room.0 as int, min_room.1 as int),
                    (max_room.0 as int, max_room.1 as int),
                    p,
                )
                &&& l.revealed() == Set::<(int, int)>::empty()
                &&& l.mobs@ == Seq::<(Position, MobType)>::empty()
            },
    {
        if min_room.0 < 1 || min_room.1 < 1 || min_room.0 > max_room.1 || width > GEN_MAX_SIDE || height > GEN_MAX_SIDE {
            return Err(ConfigurationError::RoomsDoNotFit);
        }
        match bsp_tiles(width, height, seed, min_room, max_room) {
            Err(_) => Err(ConfigurationError::RoomsDoNotFit),
            Ok(cells) => {
                let r = Level::from_layout(width, height, &cells, seed);
                proof {
                    let m = bsp_layout(width as int, height as int, seed as int, min_room.0 as int, min_room.1 as int, max_room.0 as int, max_room.1 as int);
                    assert forall|p: (int, int)| 0 <= p.0 && 0 <= p.1 implies marks_floor(cells@, p) == (m.contains_key(p) && !m[p]) by {
                        if marks_floor(cells@, p) {
                            let w = choose|w: int| 0 <= w < cells@.len() && #[trigger] cells@[w].0 as int == p.0 && cells@[w].1 as int == p.1 && !cells@[w].2;
                            assert(m.contains_key((cells@[w].0 as int, cells@[w].1 as int)));
                        }
                        if m.contains_key(p) && !m[p] {
                            let w = choose|w: int| 0 <= w < cells@.len() && #[trigger] cells@[w].0 as int == p.0 && cells@[w].1 as int == p.1;
                            assert(m.contains_key((cells@[w].0 as int, cells@[w].1 as int)));
                        }
                    }
                }
                r
            },
        }
    }

    /// The level the game is played on: 50 by 50 cells, rooms from 3 by 5
    /// up to 10 by 15, generated from seed 5.
    pub fn new() -> (l: Level)
        ensures
            l.wf(),
            l.size == (50usize, 50usize),
            forall|p: (int, int)| l.in_bounds(p) ==> #[trigger] l.tile_at(p) == generated_tile(50, 50, 5, (3, 5), (10, 15), p),
            l.revealed() == Set::<(int, int)>::empty(),
            l.mobs@ == Seq::<(Position, MobType)>::empty(),
    {
        Level::generate(50, 50, 5, (3, 5), (10, 15)).unwrap()
    }

    /// A cell where an actor may be placed: a floor cell off the first row and column.
    pub open spec fn spawn_cell(self, p: (int, int)) -> bool {
        1 <= p.0 < self.width() && 1 <= p.1 < self.height() && self.tile_at(p) == TileType::FLOOR
    }

    /// Some placed actor stands on `p`.
    pub open spec fn occupied(self, p: (int, int)) -> bool {
        exists|k: int| 0 <= k < self.mobs@.len() && #[trigger] self.mobs@[k].0@ == p
    }

    /// A spawn cell that no placed actor stands on.
    pub open spec fn free_cell(self, p: (int, int)) -> bool {
        self.spawn_cell(p) && !self.occupied(p)
    }

    pub open spec fn has_free_cell(self) -> bool {
        exists|p: (int, int)| self.free_cell(p)
    }

    /// No two placed actors stand on one cell.
    pub open spec fn mobs_apart(self) -> bool {
        forall|i: int, j: int| 0 <= i < j < self.mobs@.len() ==> self.mobs@[i].0 != self.mobs@[j].0
    }

    /// Placement of one actor of kind `mob`: `after` records it on a free
    /// spawn cell when there is one, and nothing else changes.
    pub open spec fn places(before: Level, mob: MobType, r: bool, after: Level) -> bool {
        &&& after.wf()
        &&& after.tiles == before.tiles
        &&& after.size == before.size
        &&& after.revealed_tiles == before.revealed_tiles
        &&& r == before.has_free_cell()
        &&& r ==> {
            &&& after.mobs@.len() == before.mobs@.len() + 1
            &&& after.mobs@.drop_last() == before.mobs@
            &&& before.free_cell(after.mobs@.last().0@)
            &&& after.mobs@.last().1 == mob
        }
        &&& !r ==> after.mobs == before.mobs
    }

    /// Whether a placed actor stands on the in-bounds cell (x, y).
    fn occupied_at(&self, x: usize, y: usize) -> (r: bool)
        requires
            self.wf(),
            self.in_bounds((x as int, y as int)),
        ensures
            r == self.occupied((x as int, y as int)),
    {
        let mut k: usize = 0;
        while k < self.mobs.len()
            invariant
                self.wf(),
                self.in_bounds((x as int, y as int)),
                k <= self.mobs@.len(),
                forall|j: int| 0 <= j < k ==> #[trigger] self.mobs@[j].0@ != (x as int, y as int),
            decreases self.mobs@.len() - k,
        {
            let p = self.mobs[k].0;
            if p.x as i64 == x as i64 && p.y as i64 == y as i64 {
                assert(self.mobs@[k as int].0@ == (x as int, y as int));
                return true;
            }
            k = k + 1;
        }
        false
    }

    /// Places an actor of kind `mob` on a cell drawn at random from the
    /// level's random source, drawing again while the cell is a wall or
    /// already taken. After `MAX_DRAWS` draws it takes the first free spawn
    /// cell in column order. Returns false, placing nobody, when no spawn
    /// cell is free.
    pub fn place_at_random_valid_point(&mut self, mob: MobType) -> (r: bool)
        requires
            old(self).wf(),
        ensures
            Level::places(*old(self), mob, r, *final(self)),
    {
        let w = self.size.0;
        let h = self.size.1;
        if w < 2 || h < 2 {
            return false;
        }
        let ghost before = *self;
        let mut tries: usize = 0;
        while tries < MAX_DRAWS
            invariant
                self.wf(),
                before.wf(),
                self.tiles == before.tiles,
                self.size == before.size,
                self.revealed_tiles == before.revealed_tiles,
                self.mobs == before.mobs,
                before == *old(self),
                w == before.size.0,
                h == before.size.1,
                2 <= w,
                2 <= h,
            decreases MAX_DRAWS - tries,
        {
            let x = draw_in(&mut self.rng, 1, w);
            let y = draw_in(&mut self.rng, 1, h);
            if !self.wall_at(x as i64, y as i64) && !self.occupied_at(x, y) {
                self.mobs.push((Position { x: x as i32, y: y as i32 }, mob));
                proof {
                    assert(self.mobs@.drop_last() =~= before.mobs@);
                    assert(before.free_cell((x as int, y as int)));
                }
                return true;
            }
            tries = tries + 1;
        }
        let mut x: usize = 1;
        while x < w
            invariant
                self.wf(),
                before.wf(),
                self.tiles == before.tiles,
                self.size == before.size,
                self.revealed_tiles == before.revealed_tiles,
                self.mobs == before.mobs,
                before == *old(self),
                w == before.size.0,
                h == before.size.1,
                1 <= x <= w,
                forall|p: (int, int)| p.0 < x ==> !#[trigger] before.free_cell(p),
            decreases w - x,
        {
            let mut y: usize = 1;
            while y < h
                invariant
                    self.wf(),
                    before.wf(),
                    self.tiles == before.tiles,
                    self.size == before.size,
                    self.revealed_tiles == before.revealed_tiles,
                    self.mobs == before.mobs,
                    before == *old(self),
                    w == before.size.0,
                    h == before.size.1,
                    1 <= x < w,
                    1 <= y <= h,
                    forall|p: (int, int)| (p.0 < x || (p.0 == x && p.1 < y)) ==> !#[trigger] before.free_cell(p),
                decreases h - y,
            {
                if !self.wall_at(x as i64, y as i64) && !self.occupied_at(x, y) {
                    self.mobs.push((Position { x: x as i32, y: y as i32 }, mob));
                    proof {
                        assert(self.mobs@.drop_last() =~= before.mobs@);
                        assert(before.free_cell((x as int, y as int)));
                    }
                    return true;
                }
                y = y + 1;
            }
            x = x + 1;
        }
        false
    }

    /// `after` holds the actors of `before` followed by one actor of each
    /// kind in `kinds`, in that order, each on a spawn cell that no earlier
    /// actor, old or new, stands on.
    pub open spec fn extends_mobs(before: Level, kinds: Seq<MobType>, after: Level) -> bool {
        let n = before.mobs@.len();
        &&& after.mobs@.len() == n + kinds.len()
        &&& after.mobs@.take(n as int) == before.mobs@
        &&& forall|k: int| n <= k < after.mobs@.len() ==> {
            &&& before.spawn_cell((#[trigger] after.mobs@[k]).0@)
            &&& after.mobs@[k].1 == kinds[k - n]
            &&& forall|j: int| 0 <= j < k ==> after.mobs@[j].0 != after.mobs@[k].0
        }
    }

    /// Fewer than `n` cells hold every free spawn cell of the level.
    pub open spec fn fewer_free_than(self, n: int) -> bool {
        exists|cells: Seq<(int, int)>| cells.len() < n && forall|p: (int, int)| self.free_cell(p) ==> cells.contains(p)
    }

    /// Places the actors that `requests` ask for, in order, each as
    /// `place_at_random_valid_point` does. Either all are placed or none is:
    /// it fails only when the level has fewer free spawn cells than actors
    /// asked for.
    pub fn populate(&mut self, requests: &Vec<(MobType, usize)>) -> (r: bool)
        requires
            old(self).wf(),
        ensures
            final(self).wf(),
            final(self).tiles == old(self).tiles,
            final(self).size == old(self).size,
            final(self).revealed_tiles == old(self).revealed_tiles,
            r ==> Level::extends_mobs(*old(self), expand(requests@), *final(self)),
            !r ==> final(self).mobs@ == old(self).mobs@ && old(self).fewer_free_than(expand(requests@).len() as int),
    {
        let ghost before = *self;
        let start = self.mobs.len();
        let mut i: usize = 0;
        proof {
            assert(requests@.take(0) =~= Seq::<(MobType, usize)>::empty());
            assert(self.mobs@.take(self.mobs@.len() as int) =~= self.mobs@);
        }
        while i < requests.len()
            invariant
                self.wf(),
                before == *old(self),
                start == before.mobs@.len(),
                self.tiles == before.tiles,
                self.size == before.size,
                self.revealed_tiles == before.revealed_tiles,
                i <= requests@.len(),
                Level::extends_mobs(before, expand(requests@.take(i as int)), *self),
            decreases requests@.len() - i,
        {
            let (kind, count) = requests[i];
            let ghost done = expand(requests@.take(i as int));
            let mut c: usize = 0;
            while c < count
                invariant
                    self.wf(),
                    before == *old(self),
                    start == before.mobs@.len(),
                    self.tiles == before.tiles,
                    self.size == before.size,
                    self.revealed_tiles == before.revealed_tiles,
                    c <= count,
                    i < requests@.len(),
                    requests@[i as int] == (kind, count),
                    done == expand(requests@.take(i as int)),
                    Level::extends_mobs(before, done + Seq::new(c as nat, |_j: int| kind), *self),
                decreases count - c,
            {
                let ghost mid = *self;
                let ghost kinds = done + Seq::new(c as nat, |_j: int| kind);
                let ghost n = before.mobs@.len();
                if !self.place_at_random_valid_point(kind) {
                    proof {
                        let total = expand(requests@).len() as int;
                        assert(kinds.len() < total) by {
                            lemma_expand_prefix(requests@, i + 1);
                            assert(requests@.take(i + 1).drop_last() =~= requests@.take(i as int));
                            assert(expand(requests@.take(i + 1)).len() == done.len() + count);
                        }
                        let cells = Seq::new(kinds.len(), |q: int| mid.mobs@[n + q].0@);
                        assert forall|p: (int, int)| before.free_cell(p) implies cells.contains(p) by {
                            assert(mid.spawn_cell(p));
                            assert(!mid.free_cell(p));
                            let k = choose|k: int| 0 <= k < mid.mobs@.len() && #[trigger] mid.mobs@[k].0@ == p;
                            if k < n {
                                assert(mid.mobs@.take(n as int)[k] == before.mobs@[k]);
                                assert(before.occupied(p));
                            } else {
                                assert(cells[k - n] == p);
                            }
                        }
                        assert(cells.len() < total && forall|p: (int, int)| before.free_cell(p) ==> cells.contains(p));
                        assert(before.fewer_free_than(total));
                    }
                    while self.mobs.len() > start
                        invariant
                            self.wf(),
                            self.tiles == before.tiles,
                            self.size == before.size,
                            self.revealed_tiles == before.revealed_tiles,
                            start <= self.mobs@.len() <= mid.mobs@.len(),
                            self.mobs@ == mid.mobs@.take(self.mobs@.len() as int),
                        decreases self.mobs@.len(),
                    {
                        self.mobs.pop();
                        assert(self.mobs@ =~= mid.mobs@.take(self.mobs@.len() as int));
                    }
                    return false;
                }
                proof {
                    assert forall|p: (int, int)| mid.spawn_cell(p) == before.spawn_cell(p) by {}
                    let kinds2 = done + Seq::new((c + 1) as nat, |_j: int| kind);
                    let last = self.mobs@.len() - 1;
                    assert(self.mobs@.take(n as int) =~= before.mobs@) by {
                        assert(self.mobs@.drop_last() == mid.mobs@);
                        assert(mid.mobs@.take(n as int) == before.mobs@);
                    }
                    assert forall|k: int| n <= k < self.mobs@.len() implies {
                        &&& before.spawn_cell((#[trigger] self.mobs@[k]).0@)
                        &&& self.mobs@[k].1 == kinds2[k - n]
                        &&& forall|j: int| 0 <= j < k ==> self.mobs@[j].0 != self.mobs@[k].0
                    } by {
                        if k < last {
                            assert(self.mobs@[k] == self.mobs@.drop_last()[k]);
                            assert(mid.mobs@[k] == self.mobs@[k]);
                            assert(before.spawn_cell(mid.mobs@[k].0@) && mid.mobs@[k].1 == kinds[k - n]);
                            assert(kinds2[k - n] == kinds[k - n]);
                            assert forall|j: int| 0 <= j < k implies self.mobs@[j].0 != self.mobs@[k].0 by {
                                assert(mid.mobs@[j] == self.mobs@[j]);
                            }
                        } else {
                            assert(self.mobs@[k] == self.mobs@.last());
                            assert(mid.free_cell(self.mobs@.last().0@));
                            assert(kinds2[k - n] == kind);
                            assert forall|j: int| 0 <= j < k implies self.mobs@[j].0 != self.mobs@[k].0 by {
                                assert(mid.mobs@[j] == self.mobs@[j]);
                                if self.mobs@[j].0 == self.mobs@[k].0 {
                                    assert(mid.occupied(self.mobs@.last().0@));
                                }
                            }
                        }
                    }
                }
                c = c + 1;
            }
            proof {
                assert(requests@.take(i + 1).drop_last() =~= requests@.take(i as int));
                assert(expand(requests@.take(i + 1)) =~= done + Seq::new(count as nat, |_j: int| kind));
            }
            i = i + 1;
        }
        proof {
            assert(requests@.take(requests@.len() as int) =~= requests@);
        }
        true
    }

    /// `r` is what building a level with these arguments and placing actors
    /// of the kinds `kinds` gives.
    pub open spec fn builds(
        w: int,
        h: int,
        s: int,
        lo: (int, int),
        hi: (int, int),
        kinds: Seq<MobType>,
        r: Result<Level, ConfigurationError>,
    ) -> bool {
        &&& r is Ok ==> generation_accepts(w, h, lo, hi)
        &&& r matches Err(e) ==> e == if generation_accepts(w, h, lo, hi) {
            ConfigurationError::NoFloorForActor
        } else {
            ConfigurationError::RoomsDoNotFit
        }
        &&& r is Err && generation_accepts(w, h, lo, hi) ==> generated_spawn_fewer_than(w, h, s, lo, hi, kinds.len() as int)
        &&& r matches Ok(l) ==> {
            &&& l.wf()
            &&& l.size == (w as usize, h as usize)
            &&& forall|p: (int, int)| l.in_bounds(p) ==> #[trigger] l.tile_at(p) == generated_tile(w, h, s, lo, hi, p)
            &&& l.revealed() == Set::<(int, int)>::empty()
            &&& l.mobs@.len() == kinds.len()
            &&& forall|k: int| 0 <= k < l.mobs@.len() ==> l.spawn_cell((#[trigger] l.mobs@[k]).0@) && l.mobs@[k].1 == kinds[k]
            &&& l.mobs_apart()
        }
    }

    /// Builds a level as `generate` does and places the requested actors on
    /// it as `populate` does, on distinct cells. Nothing is built unless both
    /// succeed; placement fails only when the level has fewer spawn cells
    /// than actors asked for.
    pub fn new_level(
        width: usize,
        height: usize,
        seed: u64,
        min_room: (usize, usize),
        max_room: (usize, usize),
        requests: &Vec<(MobType, usize)>,
    ) -> (r: Result<Level, ConfigurationError>)
        ensures
            Level::builds(
                width as int,
                height as int,
                seed as int,
                (min_room.0 as int, min_room.1 as int),
                (max_room.0 as int, max_room.1 as int),
                expand(requests@),
                r,
            ),
    {
        let mut level = match Level::generate(width, height, seed, min_room, max_room) {
            Ok(l) => l,
            Err(e) => {
                return Err(e);
            },
        };
        let ghost fresh = level;
        if !level.populate(requests) {
            proof {
                let (w, h, s) = (width as int, height as int, seed as int);
                let (lo, hi) = ((min_room.0 as int, min_room.1 as int), (max_room.0 as int, max_room.1 as int));
                let n = expand(requests@).len() as int;
                let cells = choose|cells: Seq<(int, int)>|
                    cells.len() < n && forall|p: (int, int)| fresh.free_cell(p) ==> cells.contains(p);
                assert forall|p: (int, int)| generated_spawn(w, h, s, lo, hi, p) implies cells.contains(p) by {
                    assert(fresh.spawn_cell(p));
                    assert(fresh.free_cell(p));
                }
                assert(generated_spawn_fewer_than(w, h, s, lo, hi, n));
            }
            return Err(ConfigurationError::NoFloorForActor);
        }
        proof {
            let (w, h, s) = (width as int, height as int, seed as int);
            let (lo, hi) = ((min_room.0 as int, min_room.1 as int), (max_room.0 as int, max_room.1 as int));
            assert(level.revealed() == fresh.revealed());
            assert forall|p: (int, int)| level.in_bounds(p) implies #[trigger] level.tile_at(p) == generated_tile(w, h, s, lo, hi, p) by {
                assert(fresh.tile_at(p) == generated_tile(w, h, s, lo, hi, p));
            }
            assert forall|k: int| 0 <= k < level.mobs@.len() implies level.spawn_cell((#[trigger] level.mobs@[k]).0@) && level.mobs@[k].1 == expand(requests@)[k] by {
                assert(fresh.spawn_cell(level.mobs@[k].0@));
                assert(level.mobs@[k].1 == expand(requests@)[k - 0]);
            }
            assert forall|i: int, j: int| 0 <= i < j < level.mobs@.len() implies level.mobs@[i].0 != level.mobs@[j].0 by {
                assert(level.spawn_cell((level.mobs@[j]).0@));
            }
        }
        Ok(level)
    }

    /// The level the game starts on: the layout of `Level::new` with one
    /// player, then four goblins, then two orcs.
    pub fn setup() -> (r: Result<Level, ConfigurationError>)
        ensures
            r matches Err(e) ==> e == ConfigurationError::NoFloorForActor && generated_spawn_fewer_than(50, 50, 5, (3, 5), (10, 15), 7),
            r matches Ok(l) ==> {
                &&& l.wf()
                &&& l.size == (50usize, 50usize)
                &&& forall|p: (int, int)| l.in_bounds(p) ==> #[trigger] l.tile_at(p) == generated_tile(50, 50, 5, (3, 5), (10, 15), p)
                &&& l.revealed() == Set::<(int, int)>::empty()
                &&& l.mobs@.len() == 7
                &&& forall|k: int| 0 <= k < 7 ==> l.spawn_cell((#[trigger] l.mobs@[k]).0@)
                &&& l.mobs@[0].1 == MobType::PLAYER
                &&& forall|k: int| 1 <= k < 5 ==> (#[trigger] l.mobs@[k]).1 == MobType::GOBLIN
                &&& forall|k: int| 5 <= k < 7 ==> (#[trigger] l.mobs@[k]).1 == MobType::ORC
                &&& l.mobs_apart()
            },
    {
        let requests = vec![(MobType::PLAYER, 1usize), (MobType::GOBLIN, 4usize), (MobType::ORC, 2usize)];
        proof {
            let q = requests@;
            assert(q.drop_last().drop_last().drop_last() =~= Seq::<(MobType, usize)>::empty());
            assert(expand(q.drop_last().drop_last().drop_last()) =~= Seq::<MobType>::empty());
            assert(q.drop_last().drop_last().last() == (MobType::PLAYER, 1usize));
            assert(expand(q.drop_last().drop_last()) =~= seq![MobType::PLAYER]);
            assert(expand(q.drop_last()) =~= seq![MobType::PLAYER, MobType::GOBLIN, MobType::GOBLIN, MobType::GOBLIN, MobType::GOBLIN]);
            assert(expand(q) =~= seq![MobType::PLAYER, MobType::GOBLIN, MobType::GOBLIN, MobType::GOBLIN, MobType::GOBLIN, MobType::ORC, MobType::ORC]);
        }
        Level::new_level(50, 50, 5, (3, 5), (10, 15), &requests)
    }
}

/// The requests of a prefix never ask for more actors than the whole list.
proof fn lemma_expand_prefix(requests: Seq<(MobType, usize)>, i: int)
    requires
        0 <= i <= requests.len(),
    ensures
        expand(requests.take(i)).len() <= expand(requests).len(),
    decreases requests.len() - i,
{
    if i < requests.len() {
        lemma_expand_prefix(requests, i + 1);
        assert(requests.take(i + 1).drop_last() =~= requests.take(i));
        assert(expand(requests.take(i + 1)).len() == expand(requests.take(i)).len() + requests[i].1);
    } else {
        assert(requests.take(i) =~= requests);
    }
}

} // verus!