//! Coordinate types and spatial constants.
//!
//! Defines the coordinate system for the world:
//! - [`WorldPos`]: Absolute pixel position (i64 for infinite worlds)
//! - [`ChunkPos`]: Chunk grid position (i32)
//! - [`LocalPos`]: Position within a chunk (u16)
//! - [`MaterialId`]: Material registry index (0-255)
//! - [`ColorIndex`]: Palette color index (0-255)
use vstd::prelude::*;

verus! {

/// Size of a chunk in pixels (width and height).
pub const CHUNK_SIZE: u32 = 512;

/// Size of a tile in pixels.
pub const TILE_SIZE: u32 = 32;

/// Width of the streaming window in chunks.
pub const WINDOW_WIDTH: u32 = 4;

/// Height of the streaming window in chunks.
pub const WINDOW_HEIGHT: u32 = 3;

/// Number of chunks in the pool (the streaming window's area).
pub const POOL_SIZE: usize = 12;

/// Number of tiles per chunk edge (chunk size over tile size).
pub const TILES_PER_CHUNK: u32 = CHUNK_SIZE / TILE_SIZE;

/// Phase assignment for 2x2 checkerboard scheduling.
///
/// Tiles are assigned to phases based on position modulo 2:
/// - A = (0, 1) - top-left of 2x2 block (Y+ up coordinate system)
/// - B = (1, 1) - top-right
/// - C = (0, 0) - bottom-left
/// - D = (1, 0) - bottom-right
///
/// This mapping ensures tiles in the same phase are never adjacent,
/// allowing safe parallel execution within a phase.
#[derive(Clone, Copy, Debug, PartialEq, Eq, Structural)]
pub enum Phase {
    A,
    B,
    C,
    D,
}

/// The phase of the tile at `(x, y)`, by the parity of each coordinate.
pub open spec fn phase_of(x: int, y: int) -> Phase {
    let px = x % 2;
    let py = y % 2;
    if px == 0 && py == 1 {
        Phase::A
    } else if px == 1 && py == 1 {
        Phase::B
    } else if px == 0 && py == 0 {
        Phase::C
    } else {
        Phase::D
    }
}

/// The index (0-3) of a phase.
pub open spec fn phase_index(p: Phase) -> int {
    match p {
        Phase::A => 0,
        Phase::B => 1,
        Phase::C => 2,
        Phase::D => 3,
    }
}

impl Phase {
    /// Returns the phase for a tile at the given position.
    pub fn from_tile(tile: TilePos) -> (p: Phase)
        ensures
            p == phase_of(tile.x as int, tile.y as int),
    {
        let rx = tile.x % 2;
        let px: i64 = if rx < 0 { rx + 2 } else { rx };
        let ry = tile.y % 2;
        let py: i64 = if ry < 0 { ry + 2 } else { ry };
        if px == 0 && py == 1 {
            Phase::A
        } else if px == 1 && py == 1 {
            Phase::B
        } else if px == 0 && py == 0 {
            Phase::C
        } else {
            Phase::D
        }
    }

    /// Returns the index (0-3) for this phase.
    pub fn index(self) -> (i: usize)
        ensures
            i == phase_index(self),
            i < 4,
    {
        match self {
            Phase::A => 0,
            Phase::B => 1,
            Phase::C => 2,
            Phase::D => 3,
        }
    }
}

/// Two distinct tiles that touch (by an edge or a corner) never share a phase.
pub proof fn lemma_adjacent_tiles_differ_in_phase(x1: int, y1: int, x2: int, y2: int)
    requires
        -1 <= x1 - x2 <= 1,
        -1 <= y1 - y2 <= 1,
        x1 != x2 || y1 != y2,
    ensures
        phase_of(x1, y1) != phase_of(x2, y2),
{
}

/// Every tile is assigned a phase whose index is below four, and the four
/// tiles of any 2x2 block are assigned four distinct phases.
pub proof fn lemma_block_covers_all_phases(x: int, y: int)
    ensures
        0 <= phase_index(phase_of(x, y)) < 4,
        phase_of(2 * x, 2 * y + 1) == Phase::A,
        phase_of(2 * x + 1, 2 * y + 1) == Phase::B,
        phase_of(2 * x, 2 * y) == Phase::C,
        phase_of(2 * x + 1, 2 * y) == Phase::D,
{
}

/// Absolute pixel position in the world.
///
/// Uses i64 for effectively infinite worlds without overflow concerns.
#[derive(Clone, Copy, Debug, PartialEq, Eq, Hash, Structural)]
pub struct WorldPos {
    pub x: i64,
    pub y: i64,
}

impl WorldPos {
    /// Creates a new world position.
    pub fn new(x: i64, y: i64) -> (p: Self)
        ensures
            p.x == x,
            p.y == y,
    {
        Self { x, y }
    }
}

/// Position in the chunk grid.
///
/// Each chunk spans [`CHUNK_SIZE`] pixels in each dimension.
#[derive(Clone, Copy, Debug, PartialEq, Eq, Hash, Structural)]
pub struct ChunkPos {
    pub x: i32,
    pub y: i32,
}

/// The hash key of a chunk position: both coordinates packed into one `i64`
/// (x in the high half, the bit pattern of y in the low half).
pub open spec fn chunk_key(x: i32, y: i32) -> int {
    x * 0x1_0000_0000 + (if y >= 0 { y as int } else { y + 0x1_0000_0000 })
}

/// Packed keys are `i64` values.
pub broadcast proof fn lemma_chunk_key_fits(x: i32, y: i32)
    ensures
        i64::MIN <= #[trigger] chunk_key(x, y) <= i64::MAX,
        (chunk_key(x, y) as i64) as int == chunk_key(x, y),
{
}

/// Distinct chunk positions have distinct keys.
pub proof fn lemma_chunk_key_injective(x1: i32, y1: i32, x2: i32, y2: i32)
    requires
        chunk_key(x1, y1) == chunk_key(x2, y2),
    ensures
        x1 == x2,
        y1 == y2,
{
}

/// Packs two coordinates into their hash key.
pub(crate) fn pack_key(x: i32, y: i32) -> (k: i64)
    ensures
        k == chunk_key(x, y),
{
    let low: i64 = if y >= 0 { y as i64 } else { y as i64 + 0x1_0000_0000i64 };
    (x as i64) * 0x1_0000_0000i64 + low
}

impl ChunkPos {
    /// Creates a new chunk position.
    pub fn new(x: i32, y: i32) -> (p: Self)
        ensures
            p.x == x,
            p.y == y,
    {
        Self { x, y }
    }
}

/// Position within a chunk (0 to CHUNK_SIZE-1).
#[derive(Clone, Copy, Debug, PartialEq, Eq, Structural)]
pub struct LocalPos {
    pub x: u16,
    pub y: u16,
}

impl LocalPos {
    /// Creates a new local position.
    pub fn new(x: u16, y: u16) -> (p: Self)
        ensures
            p.x == x,
            p.y == y,
    {
        Self { x, y }
    }
}

/// The chunk column or row holding the world coordinate `v` (floor division).
pub open spec fn chunk_of(v: int) -> int {
    v / (CHUNK_SIZE as int)
}

/// The offset of the world coordinate `v` inside its chunk.
pub open spec fn local_of(v: int) -> int {
    v % (CHUNK_SIZE as int)
}

impl WorldPos {
    /// Convert to chunk position and local offset.
    ///
    /// Uses floor division for correct negative coordinate handling.
    /// For example, world position -1 maps to chunk -1 with local offset 511.
    /// A chunk coordinate outside the `i32` range wraps as `as i32` does.
    pub fn to_chunk_and_local(self) -> (r: (ChunkPos, LocalPos))
        ensures
            r.0.x == chunk_of(self.x as int) as i32,
            r.0.y == chunk_of(self.y as int) as i32,
            r.1.x == local_of(self.x as int),
            r.1.y == local_of(self.y as int),
            r.1.x < CHUNK_SIZE,
            r.1.y < CHUNK_SIZE,
    {
        let qx = self.x / 512;
        let rx = self.x % 512;
        let (cx, lx): (i64, i64) = if rx < 0 { (qx - 1, rx + 512) } else { (qx, rx) };
        let qy = self.y / 512;
        let ry = self.y % 512;
        let (cy, ly): (i64, i64) = if ry < 0 { (qy - 1, ry + 512) } else { (qy, ry) };
        (ChunkPos::new(cx as i32, cy as i32), LocalPos::new(lx as u16, ly as u16))
    }
}

impl ChunkPos {
    /// Convert chunk origin to world position.
    ///
    /// Returns the bottom-left corner of the chunk in world coordinates.
    pub fn to_world(self) -> (w: WorldPos)
        ensures
            w.x == self.x * CHUNK_SIZE,
            w.y == self.y * CHUNK_SIZE,
    {
        WorldPos::new(self.x as i64 * 512, self.y as i64 * 512)
    }
}

/// A world position splits into the chunk holding it and the offset inside
/// that chunk: the chunk's origin plus the offset is the position again
/// (for chunk coordinates that fit in `i32`).
pub proof fn lemma_world_split_rejoins(x: int)
    requires
        i32::MIN <= chunk_of(x) <= i32::MAX,
    ensures
        (chunk_of(x) as i32) * CHUNK_SIZE + local_of(x) == x,
        0 <= local_of(x) < CHUNK_SIZE,
{
}

/// Joining a chunk and an in-chunk offset into a world position and splitting
/// it again gives back the same chunk and offset.
pub proof fn lemma_chunk_local_round_trip(c: i32, l: int)
    requires
        0 <= l < CHUNK_SIZE,
    ensures
        chunk_of(c * CHUNK_SIZE + l) as i32 == c,
        local_of(c * CHUNK_SIZE + l) == l,
{
    vstd::arithmetic::div_mod::lemma_fundamental_div_mod_converse(
        c * 512 + l,
        512,
        c as int,
        l,
    );
}

/// Material registry index (0-255).
#[derive(Clone, Copy, Default, Debug, PartialEq, Eq, Structural)]
pub struct MaterialId(pub u8);

/// Palette color index (0-255).
#[derive(Clone, Copy, Default, Debug, PartialEq, Eq, Structural)]
pub struct ColorIndex(pub u8);

/// Tile position in the world grid.
///
/// Each tile spans [`TILE_SIZE`] pixels in each dimension.
#[derive(Clone, Copy, Debug, PartialEq, Eq, Hash, PartialOrd, Ord, Structural)]
pub struct TilePos {
    pub x: i64,
    pub y: i64,
}

impl TilePos {
    /// Creates a new tile position.
    pub fn new(x: i64, y: i64) -> (p: Self)
        ensures
            p.x == x,
            p.y == y,
    {
        Self { x, y }
    }
}

/// World-coordinate axis-aligned bounding box.
#[derive(Clone, Copy, Debug, PartialEq, Eq, Structural)]
pub struct WorldRect {
    pub x: i64,
    pub y: i64,
    pub width: u32,
    pub height: u32,
}

impl WorldRect {
    /// The rectangle's far edges are representable as `i64` coordinates.
    pub open spec fn fits(self) -> bool {
        self.x + self.width <= i64::MAX && self.y + self.height <= i64::MAX
    }

    /// Whether the point `(px, py)` lies inside the rectangle.
    pub open spec fn holds(self, px: int, py: int) -> bool {
        self.x <= px < self.x + self.width && self.y <= py < self.y + self.height
    }

    /// Creates a new world rectangle.
    pub fn new(x: i64, y: i64, width: u32, height: u32) -> (r: Self)
        ensures
            r == (WorldRect { x, y, width, height }),
    {
        Self { x, y, width, height }
    }

    /// Creates a rectangle centered on a point with given radius.
    pub fn centered(center_x: i64, center_y: i64, radius: u32) -> (r: Self)
        requires
            2 * radius + 1 <= u32::MAX,
            center_x - radius >= i64::MIN,
            center_y - radius >= i64::MIN,
        ensures
            r.x == center_x - radius,
            r.y == center_y - radius,
            r.width == 2 * radius + 1,
            r.height == 2 * radius + 1,
    {
        let diameter = radius * 2 + 1;
        Self {
            x: center_x - radius as i64,
            y: center_y - radius as i64,
            width: diameter,
            height: diameter,
        }
    }

    /// Returns true if the given world position is within this rect.
    pub fn contains(&self, pos: WorldPos) -> (b: bool)
        requires
            self.fits(),
        ensures
            b == self.holds(pos.x as int, pos.y as int),
    {
        pos.x >= self.x && pos.x < self.x + self.width as i64 && pos.y >= self.y && pos.y
            < self.y + self.height as i64
    }

    /// Returns the intersection of two rectangles, or None if they don't overlap.
    pub fn intersection(&self, other: &WorldRect) -> (r: Option<WorldRect>)
        requires
            self.fits(),
            other.fits(),
        ensures
            ({
                let x1 = if self.x >= other.x { self.x as int } else { other.x as int };
                let y1 = if self.y >= other.y { self.y as int } else { other.y as int };
                let sx2 = self.x + self.width;
                let ox2 = other.x + other.width;
                let sy2 = self.y + self.height;
                let oy2 = other.y + other.height;
                let x2 = if sx2 <= ox2 { sx2 } else { ox2 };
                let y2 = if sy2 <= oy2 { sy2 } else { oy2 };
                match r {
                    Some(i) => x1 < x2 && y1 < y2 && i.x == x1 && i.y == y1 && i.width == x2 - x1
                        && i.height == y2 - y1,
                    None => !(x1 < x2 && y1 < y2),
                }
            }),
    {
        let x1 = if self.x >= other.x { self.x } else { other.x };
        let y1 = if self.y >= other.y { self.y } else { other.y };
        let sx2 = self.x + self.width as i64;
        let ox2 = other.x + other.width as i64;
        let sy2 = self.y + self.height as i64;
        let oy2 = other.y + other.height as i64;
        let x2 = if sx2 <= ox2 { sx2 } else { ox2 };
        let y2 = if sy2 <= oy2 { sy2 } else { oy2 };
        if x1 < x2 && y1 < y2 {
            Some(WorldRect { x: x1, y: y1, width: (x2 - x1) as u32, height: (y2 - y1) as u32 })
        } else {
            None
        }
    }

    /// Returns a new rectangle translated by the given offset.
    pub fn translate(&self, dx: i64, dy: i64) -> (r: WorldRect)
        requires
            i64::MIN <= self.x + dx <= i64::MAX,
            i64::MIN <= self.y + dy <= i64::MAX,
        ensures
            r.x == self.x + dx,
            r.y == self.y + dy,
            r.width == self.width,
            r.height == self.height,
    {
        WorldRect { x: self.x + dx, y: self.y + dy, width: self.width, height: self.height }
    }

    /// The lowest tile column the rectangle touches.
    pub open spec fn min_tile_x(self) -> int {
        (self.x as int) / (TILE_SIZE as int)
    }

    /// The lowest tile row the rectangle touches.
    pub open spec fn min_tile_y(self) -> int {
        (self.y as int) / (TILE_SIZE as int)
    }

    /// The highest tile column the rectangle touches.
    pub open spec fn max_tile_x(self) -> int {
        (self.x + self.width - 1) / (TILE_SIZE as int)
    }

    /// The highest tile row the rectangle touches.
    pub open spec fn max_tile_y(self) -> int {
        (self.y + self.height - 1) / (TILE_SIZE as int)
    }

    /// Returns the tile positions that overlap this rect, column by column
    /// (x outer, y inner), each column from its lowest row up. An empty rect
    /// (zero width or height) overlaps no tile.
    pub fn to_tile_range(&self) -> (tiles: Vec<TilePos>)
        requires
            self.fits(),
        ensures
            tiles@ == (if self.width == 0 || self.height == 0 {
                Seq::<TilePos>::empty()
            } else {
                tile_grid(self.min_tile_x(), self.max_tile_x(), self.min_tile_y(), self.max_tile_y())
            }),
            forall|t: TilePos|
                tiles@.contains(t) <==> (self.width > 0 && self.height > 0 && self.min_tile_x() <= t.x
                    <= self.max_tile_x() && self.min_tile_y() <= t.y <= self.max_tile_y()),
    {
        if self.width == 0 || self.height == 0 {
            return Vec::new();
        }
        let min_tx = floor_div_tile(self.x);
        let min_ty = floor_div_tile(self.y);
        let max_tx = floor_div_tile(self.x + self.width as i64 - 1);
        let max_ty = floor_div_tile(self.y + self.height as i64 - 1);
        let mut tiles: Vec<TilePos> = Vec::new();
        if min_tx > max_tx || min_ty > max_ty {
            proof {
                lemma_tile_grid_members(min_tx as int, max_tx as int, min_ty as int, max_ty as int);
                lemma_tile_grid_empty(min_tx as int, max_tx as int, min_ty as int, max_ty as int);
            }
            return tiles;
        }
        let mut tx = min_tx;
        while tx <= max_tx
            invariant
                min_tx <= tx <= max_tx + 1,
                min_ty <= max_ty,
                max_tx < i64::MAX,
                max_ty < i64::MAX,
                tiles@ == tile_grid(min_tx as int, tx - 1, min_ty as int, max_ty as int),
            decreases max_tx + 1 - tx,
        {
            let mut ty = min_ty;
            let ghost before = tiles@;
            while ty <= max_ty
                invariant
                    min_ty <= ty <= max_ty + 1,
                    max_ty < i64::MAX,
                    min_tx <= tx <= max_tx,
                    tiles@ == before + tile_column(tx as int, min_ty as int, ty - 1),
                decreases max_ty + 1 - ty,
            {
                tiles.push(TilePos::new(tx, ty));
                proof {
                    assert(tile_column(tx as int, min_ty as int, ty as int) =~= tile_column(
                        tx as int,
                        min_ty as int,
                        ty - 1,
                    ).push(TilePos { x: tx, y: ty }));
                }
                ty = ty + 1;
            }
            tx = tx + 1;
        }
        proof {
            lemma_tile_grid_members(min_tx as int, max_tx as int, min_ty as int, max_ty as int);
        }
        tiles
    }
}

/// Floor division of `v` by the tile size.
fn floor_div_tile(v: i64) -> (q: i64)
    ensures
        q == (v as int) / (TILE_SIZE as int),
{
    let q = v / 32;
    if v % 32 < 0 {
        q - 1
    } else {
        q
    }
}

/// The tiles of column `tx` from row `lo` up to row `hi`, lowest first.
pub open spec fn tile_column(tx: int, lo: int, hi: int) -> Seq<TilePos> {
    Seq::new(
        if hi >= lo { (hi - lo + 1) as nat } else { 0 },
        |j: int| TilePos { x: tx as i64, y: (lo + j) as i64 },
    )
}

/// The tiles of columns `x_lo..=x_hi`, rows `y_lo..=y_hi`, column by column.
pub open spec fn tile_grid(x_lo: int, x_hi: int, y_lo: int, y_hi: int) -> Seq<TilePos>
    decreases x_hi - x_lo + 1,
{
    if x_hi < x_lo {
        Seq::empty()
    } else {
        tile_grid(x_lo, x_hi - 1, y_lo, y_hi) + tile_column(x_hi, y_lo, y_hi)
    }
}

proof fn lemma_tile_grid_empty(x_lo: int, x_hi: int, y_lo: int, y_hi: int)
    requires
        x_hi < x_lo || y_hi < y_lo,
    ensures
        tile_grid(x_lo, x_hi, y_lo, y_hi) =~= Seq::<TilePos>::empty(),
    decreases x_hi - x_lo + 1,
{
    if x_hi >= x_lo {
        lemma_tile_grid_empty(x_lo, x_hi - 1, y_lo, y_hi);
        assert(tile_column(x_hi, y_lo, y_hi) =~= Seq::<TilePos>::empty());
    }
}

proof fn lemma_tile_grid_members(x_lo: int, x_hi: int, y_lo: int, y_hi: int)
    requires
        i64::MIN <= x_lo,
        x_hi <= i64::MAX,
        i64::MIN <= y_lo,
        y_hi <= i64::MAX,
    ensures
        forall|t: TilePos|
            tile_grid(x_lo, x_hi, y_lo, y_hi).contains(t) <==> (x_lo <= t.x <= x_hi && y_lo <= t.y
                <= y_hi),
    decreases x_hi - x_lo + 1,
{
    if x_hi >= x_lo {
        lemma_tile_grid_members(x_lo, x_hi - 1, y_lo, y_hi);
        let prev = tile_grid(x_lo, x_hi - 1, y_lo, y_hi);
        let col = tile_column(x_hi, y_lo, y_hi);
        assert forall|t: TilePos|
            tile_grid(x_lo, x_hi, y_lo, y_hi).contains(t) <==> (x_lo <= t.x <= x_hi && y_lo <= t.y
                <= y_hi) by {
            let g = tile_grid(x_lo, x_hi, y_lo, y_hi);
            assert(g == prev + col);
            assert(g.len() == prev.len() + col.len());
            if x_lo <= t.x <= x_hi && y_lo <= t.y <= y_hi {
                if t.x < x_hi {
                    assert(prev.contains(t));
                    let k = choose|k: int| 0 <= k < prev.len() && prev[k] == t;
                    assert(g[k] == prev[k]);
                } else {
                    let k = t.y - y_lo;
                    assert(col[k] == t);
                    assert(g[prev.len() + k] == col[k]);
                }
            }
            if g.contains(t) {
                let k = choose|k: int| 0 <= k < g.len() && g[k] == t;
                if k < prev.len() {
                    assert(g[k] == prev[k]);
                    assert(prev.contains(t));
                } else {
                    assert(g[k] == col[k - prev.len()]);
                }
            }
        }
    }
}

/// The intersection of two rectangles holds exactly the points that lie in
/// both, and it does not depend on the order of the two rectangles.
pub proof fn lemma_intersection_is_common_area(a: WorldRect, b: WorldRect, px: int, py: int)
    requires
        a.fits(),
        b.fits(),
    ensures
        ({
            let x1 = if a.x >= b.x { a.x as int } else { b.x as int };
            let y1 = if a.y >= b.y { a.y as int } else { b.y as int };
            let x2 = if a.x + a.width <= b.x + b.width { a.x + a.width } else { b.x + b.width };
            let y2 = if a.y + a.height <= b.y + b.height { a.y + a.height } else { b.y + b.height };
            (x1 <= px < x2 && y1 <= py < y2) <==> (a.holds(px, py) && b.holds(px, py))
        }),
{
}

/// A centred rectangle holds exactly the points within `radius` of its centre
/// along each axis.
pub proof fn lemma_centered_holds_within_radius(
    cx: int,
    cy: int,
    radius: int,
    r: WorldRect,
    px: int,
    py: int,
)
    requires
        radius >= 0,
        r.x == cx - radius,
        r.y == cy - radius,
        r.width == 2 * radius + 1,
        r.height == 2 * radius + 1,
    ensures
        r.holds(px, py) <==> (cx - radius <= px <= cx + radius && cy - radius <= py <= cy
            + radius),
{
}

} // verus!
