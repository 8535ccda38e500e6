//! Chunks, the squares of cells in which the world is kept, and the indices and positions that
//! go with them.

use vstd::prelude::*;
use crate::cell::Cell;
use crate::dude::Dude;
use crate::point::{
    div_floor, floor_div, floor_mod, Index, lemma_floor_div_mod, mod_floor, Point, WorldPosition,
};

verus! {

/// The number of cells per row inside a chunk.
pub const CHUNK_WIDTH: i32 = 16;

/// The total number of cells per chunk.
pub const CHUNK_SIZE: usize = 256;

/// The index of a chunk in the grid of all chunks of the world.
///
/// A world position and a chunk index are different quantities, so the index has a type of its
/// own.
#[derive(Copy, Clone, Debug, Hash, PartialEq, Eq, Structural)]
pub struct ChunkIndex(pub Point);

impl ChunkIndex {
    pub fn new(x: i32, y: i32) -> (index: ChunkIndex)
        ensures
            index == ChunkIndex(Point { x, y }),
    {
        ChunkIndex(Point::new(x, y))
    }

    /// The chunk that holds the cell at `pos`.
    pub open spec fn containing(pos: Point) -> ChunkIndex {
        ChunkIndex(
            Point {
                x: floor_div(pos.x as int, CHUNK_WIDTH as int) as i32,
                y: floor_div(pos.y as int, CHUNK_WIDTH as int) as i32,
            },
        )
    }

    /// The world position of the chunk's first cell, as mathematical integers.
    pub open spec fn origin(self) -> (int, int) {
        (self.0.x * CHUNK_WIDTH, self.0.y * CHUNK_WIDTH)
    }

    /// The chunk that holds the cell at `pos`: cells `0..CHUNK_WIDTH` lie in chunk 0, cells
    /// `-CHUNK_WIDTH..0` in chunk -1.
    pub fn from_world_pos(pos: Point) -> (index: ChunkIndex)
        ensures
            index == ChunkIndex::containing(pos),
            index.origin().0 <= pos.x < index.origin().0 + CHUNK_WIDTH,
            index.origin().1 <= pos.y < index.origin().1 + CHUNK_WIDTH,
    {
        proof {
            lemma_floor_div_mod(pos.x as int, CHUNK_WIDTH as int);
            lemma_floor_div_mod(pos.y as int, CHUNK_WIDTH as int);
        }
        ChunkIndex::new(div_floor(pos.x, CHUNK_WIDTH), div_floor(pos.y, CHUNK_WIDTH))
    }
}

impl Index for ChunkIndex {
    open spec fn place(&self) -> Point {
        self.0
    }

    fn x(&self) -> (x: i32) {
        self.0.x
    }

    fn y(&self) -> (y: i32) {
        self.0.y
    }
}

/// The position of a cell inside its chunk.
#[derive(Copy, Clone, Debug, PartialEq, Eq, Structural)]
pub struct ChunkPosition(pub Point);

impl ChunkPosition {
    /// Both coordinates lie inside a chunk.
    pub open spec fn in_chunk(self) -> bool {
        0 <= self.0.x < CHUNK_WIDTH && 0 <= self.0.y < CHUNK_WIDTH
    }

    /// The position inside its chunk of the cell at `pos`.
    pub open spec fn of_world(pos: Point) -> ChunkPosition {
        ChunkPosition(
            Point {
                x: floor_mod(pos.x as int, CHUNK_WIDTH as int) as i32,
                y: floor_mod(pos.y as int, CHUNK_WIDTH as int) as i32,
            },
        )
    }

    /// Takes a point that lies inside a chunk as a position in it.
    pub fn from(pos: Point) -> (p: ChunkPosition)
        requires
            0 <= pos.x < CHUNK_WIDTH,
            0 <= pos.y < CHUNK_WIDTH,
        ensures
            p == ChunkPosition(pos),
            p.in_chunk(),
    {
        ChunkPosition(pos)
    }

    /// The position inside its chunk of the cell at the world position `pos`.
    pub fn from_world(pos: &Point) -> (p: ChunkPosition)
        ensures
            p == ChunkPosition::of_world(*pos),
            p.in_chunk(),
    {
        ChunkPosition(Point::new(mod_floor(pos.x, CHUNK_WIDTH), mod_floor(pos.y, CHUNK_WIDTH)))
    }
}

/// A world position is found again from the chunk that holds it and the position inside that
/// chunk.
pub proof fn lemma_world_pos_split(pos: Point)
    ensures
        ChunkPosition::of_world(pos).in_chunk(),
        pos.x == ChunkIndex::containing(pos).origin().0 + ChunkPosition::of_world(pos).0.x,
        pos.y == ChunkIndex::containing(pos).origin().1 + ChunkPosition::of_world(pos).0.y,
{
    lemma_floor_div_mod(pos.x as int, CHUNK_WIDTH as int);
    lemma_floor_div_mod(pos.y as int, CHUNK_WIDTH as int);
}

impl WorldPosition {
    /// The world position of a chunk's first cell.
    pub fn from_chunk_index(index: ChunkIndex) -> (p: Point)
        requires
            i32::MIN <= index.origin().0 <= i32::MAX,
            i32::MIN <= index.origin().1 <= i32::MAX,
        ensures
            p.x == index.origin().0,
            p.y == index.origin().1,
    {
        Point::new(index.0.x * CHUNK_WIDTH, index.0.y * CHUNK_WIDTH)
    }
}

/// The place in a chunk's row of cells of the cell at a position: rows first.
pub open spec fn cell_number(pos: ChunkPosition) -> int {
    pos.0.y * CHUNK_WIDTH + pos.0.x
}

/// The position in a chunk of the cell with a number.
pub open spec fn cell_position(number: int) -> ChunkPosition {
    ChunkPosition(Point { x: (number % CHUNK_WIDTH as int) as i32,
        y: (number / CHUNK_WIDTH as int) as i32 })
}

/// The world position of a cell of a chunk, as mathematical integers.
pub open spec fn world_coordinates(index: ChunkIndex, pos: ChunkPosition) -> (int, int) {
    (pos.0.x + index.0.x * CHUNK_WIDTH, pos.0.y + index.0.y * CHUNK_WIDTH)
}

/// The world has a position for the cell: its coordinates fit the integers that positions are
/// made of.
pub open spec fn has_world_position(index: ChunkIndex, pos: ChunkPosition) -> bool {
    &&& i32::MIN <= world_coordinates(index, pos).0 <= i32::MAX
    &&& i32::MIN <= world_coordinates(index, pos).1 <= i32::MAX
}

/// A square of cells, `CHUNK_WIDTH` to a side.
#[derive(Debug)]
pub struct Chunk {
    cells: [Cell; 256],
}

impl Chunk {
    /// The cells, row after row. There are `CHUNK_SIZE` of them.
    pub closed spec fn cells(self) -> Seq<Cell> {
        self.cells@
    }

    /// The cell at a position.
    pub open spec fn cell_at(self, pos: ChunkPosition) -> Cell {
        self.cells()[cell_number(pos)]
    }

    /// The chunk with the given cells, which are as many as a chunk holds.
    pub closed spec fn with_cells(cells: Seq<Cell>) -> Chunk {
        choose|chunk: Chunk| chunk.cells() == cells
    }

    /// A chunk has `CHUNK_SIZE` cells, and is the chunk with those cells: no two chunks have
    /// the same.
    pub proof fn lemma_cells(self)
        ensures
            self.cells().len() == CHUNK_SIZE,
            Chunk::with_cells(self.cells()) == self,
    {
        let other = Chunk::with_cells(self.cells());
        assert(other.cells() == self.cells());
        assert(other.cells =~= self.cells);
    }

    /// A chunk of equal cells.
    pub fn new(cell: Cell) -> (chunk: Chunk)
        ensures
            chunk.cells() == Seq::new(CHUNK_SIZE as nat, |i: int| cell),
    {
        let chunk = Chunk { cells: [cell;256] };
        assert(chunk.cells() =~= Seq::new(CHUNK_SIZE as nat, |i: int| cell));
        chunk
    }

    /// A chunk of the given cells, row after row, if they are as many as a chunk holds.
    pub fn from_cells(cells: &Vec<Cell>) -> (chunk: Option<Chunk>)
        ensures
            chunk is Some <==> cells@.len() == CHUNK_SIZE,
            chunk matches Some(c) ==> c.cells() == cells@ && c == Chunk::with_cells(cells@),
    {
        if cells.len() != CHUNK_SIZE {
            return None;
        }
        let mut chunk = Chunk { cells: [cells[0];256] };
        let mut i: usize = 0;
        while i < CHUNK_SIZE
            invariant
                i <= CHUNK_SIZE,
                cells@.len() == CHUNK_SIZE,
                forall|j: int| 0 <= j < i ==> chunk.cells@[j] == cells@[j],
            decreases CHUNK_SIZE - i,
        {
            chunk.cells[i] = cells[i];
            i += 1;
        }
        assert(chunk.cells() =~= cells@);
        proof {
            chunk.lemma_cells();
        }
        Some(chunk)
    }

    fn cell_index(pos: ChunkPosition) -> (index: usize)
        requires
            pos.in_chunk(),
        ensures
            index == cell_number(pos),
            index < CHUNK_SIZE,
    {
        (pos.0.y * CHUNK_WIDTH + pos.0.x) as usize
    }

    /// Gets the cell at a position within this chunk.
    pub fn cell(&self, pos: ChunkPosition) -> (cell: &Cell)
        requires
            pos.in_chunk(),
        ensures
            *cell == self.cell_at(pos),
    {
        let index: usize = Chunk::cell_index(pos);
        &self.cells[index]
    }

    /// Lends out the cell at a position within this chunk for a change in place.
    pub fn cell_mut(&mut self, pos: ChunkPosition) -> (cell: &mut Cell)
        requires
            pos.in_chunk(),
        ensures
            *cell == old(self).cell_at(pos),
            final(self).cells() == old(self).cells().update(cell_number(pos), *final(cell)),
    {
        let index: usize = Chunk::cell_index(pos);
        &mut self.cells[index]
    }

    /// Calculates the position in the world of a cell of a chunk.
    pub fn world_position_at(index: &ChunkIndex, pos: &ChunkPosition) -> (p: Point)
        requires
            has_world_position(*index, *pos),
        ensures
            p.x == world_coordinates(*index, *pos).0,
            p.y == world_coordinates(*index, *pos).1,
    {
        let x: i64 = pos.0.x as i64 + index.0.x as i64 * CHUNK_WIDTH as i64;
        let y: i64 = pos.0.y as i64 + index.0.y as i64 * CHUNK_WIDTH as i64;
        Point::new(x as i32, y as i32)
    }

    /// The position in the world of a cell of a chunk, where the world has one.
    pub fn checked_world_position(index: &ChunkIndex, pos: &ChunkPosition) -> (p: Option<Point>)
        ensures
            p is Some <==> has_world_position(*index, *pos),
            p matches Some(q) ==> q.x == world_coordinates(*index, *pos).0 && q.y
                == world_coordinates(*index, *pos).1,
    {
        let x: i64 = pos.0.x as i64 + index.0.x as i64 * CHUNK_WIDTH as i64;
        let y: i64 = pos.0.y as i64 + index.0.y as i64 * CHUNK_WIDTH as i64;
        if x < i32::MIN as i64 || x > i32::MAX as i64 || y < i32::MIN as i64 || y > i32::MAX as i64 {
            None
        } else {
            Some(Point::new(x as i32, y as i32))
        }
    }

    /// The cells of the chunk with their positions, row after row.
    pub fn iter(&self) -> (cells: Vec<(ChunkPosition, Cell)>)
        ensures
            cells@.len() == CHUNK_SIZE,
            forall|i: int|
                0 <= i < CHUNK_SIZE ==> #[trigger] cells@[i] == (cell_position(i), self.cells()[i]),
            forall|i: int| 0 <= i < CHUNK_SIZE ==> (#[trigger] cells@[i]).0.in_chunk(),
    {
        let mut cells: Vec<(ChunkPosition, Cell)> = Vec::new();
        let mut index: i32 = 0;
        while index < 256
            invariant
                0 <= index <= 256,
                cells@.len() == index,
                forall|i: int|
                    0 <= i < index ==> #[trigger] cells@[i] == (cell_position(i), self.cells()[i]),
                forall|i: int| 0 <= i < index ==> (#[trigger] cells@[i]).0.in_chunk(),
            decreases 256 - index,
        {
            let x: i32 = index % CHUNK_WIDTH;
            let y: i32 = index / CHUNK_WIDTH;
            cells.push((ChunkPosition(Point::new(x, y)), self.cells[index as usize]));
            index += 1;
        }
        cells
    }
}

/// What is saved of a chunk: its cells, and the dudes who stood on them when it was unloaded.
#[derive(Debug)]
pub struct SerialChunk {
    pub chunk: Chunk,
    pub dudes: Vec<(WorldPosition, Dude)>,
}

} // verus!
