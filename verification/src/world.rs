//! The world in memory: the chunks around the observer and the dudes on them, loaded from the
//! save and written back to it.

use vstd::prelude::*;
use crate::cell::{Cell, CellKind, Color};
use crate::chunk::{
    cell_number, Chunk, CHUNK_SIZE, CHUNK_WIDTH, ChunkIndex, ChunkPosition, lemma_world_pos_split,
    SerialChunk,
};
use crate::codec::{ChunkCodec, ChunkGenerator, dudes_of, padded};
use crate::crowd::{
    agree_on, collect_dudes, dudes_on, footprint, lemma_gathered_frame, lemma_settled_keeps,
    position_of_cell, remove_dudes_in_chunk, settle_dudes, settled, spawn_dudes, spawned,
};
use crate::direction::{Direction, stepped, steps};
use crate::dude::Dude;
use crate::format::{after_write, empty_region_file, write_fault};
use crate::point::{lemma_floor_div_mod, Point, WorldPosition};
use crate::point_map::PointMap;
use crate::point_set::PointSet;
use crate::region::{
    invalid_data, local_of, Region, region_of, RegionIndex, SECTOR_SIZE, SerialError, SerialResult,
    slot_number,
};
use crate::region_manager::{acceptable, lists, RegionManager};
use crate::window::{relevant_chunks, window};

verus! {

/// The position lies in the rectangle whose first cell is `top_left` and whose width and
/// height are the coordinates of `dimensions`.
pub open spec fn in_rectangle(top_left: Point, dimensions: Point, p: Point) -> bool {
    &&& top_left.x <= p.x < top_left.x + dimensions.x
    &&& top_left.y <= p.y < top_left.y + dimensions.y
}

/// The cell at the first position comes before the cell at the second when cells are walked
/// chunk after chunk, the chunks row after row, and the cells of a chunk row after row.
pub open spec fn walked_before(p: Point, q: Point) -> bool {
    let a = ChunkIndex::containing(p);
    let b = ChunkIndex::containing(q);
    a.0.y < b.0.y || (a.0.y == b.0.y && (a.0.x < b.0.x || (a.0.x == b.0.x && cell_number(
        ChunkPosition::of_world(p),
    ) < cell_number(ChunkPosition::of_world(q)))))
}

/// The positions of a list of cells.
pub open spec fn positions(cells: Seq<(Point, Cell)>) -> Seq<Point> {
    Seq::new(cells.len(), |i: int| cells[i].0)
}

/// The part of an endless world of chunks that is in memory: the chunks around the observer,
/// and the dudes who stand on them.
///
/// Chunks come in from the region files of the save, or from the generator where the save
/// has none, and go out to the region files. A chunk is loaded exactly while the region that
/// owns it lists it as unsaved. The world keeps a record, for proofs alone, of the chunks that
/// the generator was asked for: it is asked for no chunk twice.
pub struct World<K, G> {
    regions: RegionManager,
    chunks: PointMap<Chunk>,
    dudes: PointMap<Dude>,
    pub observer: WorldPosition,
    codec: K,
    gen: G,
    asked: Ghost<Seq<Point>>,
}

impl<K: ChunkCodec, G: ChunkGenerator> World<K, G> {
    /// The chunks that are loaded, by their indices' points.
    pub closed spec fn resident(self) -> Map<Point, Chunk> {
        self.chunks@
    }

    /// The dudes of the loaded part of the world, by their positions.
    pub closed spec fn crowd(self) -> Map<Point, Dude> {
        self.dudes@
    }

    /// The regions of the save.
    pub closed spec fn terrain(self) -> RegionManager {
        self.regions
    }

    /// The position around which chunks are loaded.
    pub closed spec fn observer_position(self) -> WorldPosition {
        self.observer
    }

    /// The codec that turns chunks into bytes and back.
    pub closed spec fn codec_used(self) -> K {
        self.codec
    }

    /// The generator that makes new chunks.
    pub closed spec fn generator_used(self) -> G {
        self.gen
    }

    /// The chunks that the generator was asked for since the world was made, by their
    /// indices' points, in the order in which it was asked.
    pub closed spec fn generated(self) -> Seq<Point> {
        self.asked@
    }

    /// The indices of the loaded chunks in the order in which `chunk_indices` hands them out:
    /// the order in which the chunks were loaded.
    pub closed spec fn chunk_order(self) -> Seq<ChunkIndex> {
        Seq::new(self.chunks.key_order().len(), |i: int| ChunkIndex(self.chunks.key_order()[i]))
    }

    /// The positions at which dudes stand in the order in which `dudes` hands them out: the
    /// order in which dudes first came to stand there.
    pub closed spec fn dude_order(self) -> Seq<Point> {
        self.dudes.key_order()
    }

    /// No chunk and no dude is listed twice.
    pub closed spec fn storage_wf(self) -> bool {
        self.chunks.wf() && self.dudes.wf()
    }

    /// The chunk at an index is loaded.
    pub open spec fn is_loaded(self, index: ChunkIndex) -> bool {
        self.resident().contains_key(index.0)
    }

    /// The regions are in order, and the chunks that are loaded are the chunks that their
    /// regions list as unsaved. The generator was asked for no chunk twice, and every chunk
    /// that it was asked for is loaded or has a record in the save.
    pub open spec fn wf(self) -> bool {
        &&& self.storage_wf()
        &&& self.terrain().wf()
        &&& forall|index: ChunkIndex|
            #![trigger self.is_loaded(index)]
            #![trigger self.terrain().chunk_unsaved(index)]
            self.is_loaded(index) <==> self.terrain().chunk_unsaved(index)
        &&& self.generated().no_duplicates()
        &&& forall|p: Point| #[trigger]
            self.generated().contains(p) ==> self.resident().contains_key(p)
                || self.terrain().stored_chunk(ChunkIndex(p)) is Some
    }

    /// Two worlds have the same chunks loaded, the same dudes, the same observer, the same
    /// codec, and the same bytes in every region file.
    pub open spec fn same_state(self, other: Self) -> bool {
        &&& self.resident() == other.resident()
        &&& self.crowd() == other.crowd()
        &&& self.observer_position() == other.observer_position()
        &&& self.codec_used() == other.codec_used()
        &&& forall|index: RegionIndex| #[trigger]
            self.terrain().region_file(index) == other.terrain().region_file(index)
    }

    /// Loaded chunks are finitely many.
    pub proof fn lemma_resident_finite(self)
        requires
            self.wf(),
        ensures
            self.resident().dom().finite(),
            self.crowd().dom().finite(),
    {
        self.chunks.lemma_key_order();
        self.dudes.lemma_key_order();
    }

    /// A world with nothing loaded, on the given regions.
    fn on_regions(regions: RegionManager, codec: K, gen: G) -> (world: Self)
        requires
            regions.wf(),
            forall|index: ChunkIndex| !regions.chunk_unsaved(index),
        ensures
            world.wf(),
            world.resident() == Map::<Point, Chunk>::empty(),
            world.crowd() == Map::<Point, Dude>::empty(),
            world.terrain() == regions,
            world.observer_position() == (Point { x: 0, y: 0 }),
            world.codec_used() == codec,
            world.generator_used() == gen,
            world.generated() == Seq::<Point>::empty(),
    {
        World {
            regions,
            chunks: PointMap::new(),
            dudes: PointMap::new(),
            observer: Point::new(0, 0),
            codec,
            gen,
            asked: Ghost(Seq::empty()),
        }
    }

    /// A world with nothing loaded, on a save with the given region files. The files are
    /// turned down, as data that is not what it should be, where one of them is no region
    /// file or a region has two.
    pub fn load(files: Vec<(RegionIndex, Vec<u8>)>, codec: K, gen: G) -> (result: SerialResult<Self>)
        ensures
            result is Ok <==> acceptable(files@),
            result is Err ==> result matches Err(SerialError::IoError(_)),
            result matches Ok(world) ==> {
                &&& world.wf()
                &&& world.resident() == Map::<Point, Chunk>::empty()
                &&& world.crowd() == Map::<Point, Dude>::empty()
                &&& world.observer_position() == (Point { x: 0, y: 0 })
                &&& world.codec_used() == codec
                &&& world.generator_used() == gen
                &&& world.generated() == Seq::<Point>::empty()
                &&& forall|index: RegionIndex| #[trigger]
                    world.terrain().has_file(index) <==> lists(files@, index)
                &&& forall|i: int|
                    0 <= i < files@.len() ==> world.terrain().region_file((#[trigger] files@[i]).0)
                        == files@[i].1@
            },
    {
        match RegionManager::with_files(files) {
            Some(regions) => Ok(World::on_regions(regions, codec, gen)),
            None => Err(SerialError::from(invalid_data())),
        }
    }

    /// Copies of the region files of the save, each once. Chunks that are loaded are in them
    /// as they were written last.
    pub fn files(&self) -> (files: Vec<(RegionIndex, Vec<u8>)>)
        requires
            self.wf(),
        ensures
            acceptable(files@),
            forall|index: RegionIndex| #[trigger]
                lists(files@, index) <==> self.terrain().has_file(index),
            forall|i: int|
                0 <= i < files@.len() ==> (#[trigger] files@[i]).1@ == self.terrain().region_file(
                    files@[i].0,
                ),
    {
        self.regions.files()
    }

    /// Gives the world up and hands out the region files of the save, each once. Chunks that
    /// are loaded still are not written first: `save` does that.
    pub fn into_files(self) -> (files: Vec<(RegionIndex, Vec<u8>)>)
        requires
            self.wf(),
        ensures
            acceptable(files@),
            forall|index: RegionIndex| #[trigger]
                lists(files@, index) <==> self.terrain().has_file(index),
            forall|i: int|
                0 <= i < files@.len() ==> (#[trigger] files@[i]).1@ == self.terrain().region_file(
                    files@[i].0,
                ),
    {
        self.regions.into_files()
    }

    /// A world with nothing loaded, on a save that has no files yet.
    pub fn new_empty(codec: K, gen: G) -> (world: Self)
        ensures
            world.wf(),
            world.resident() == Map::<Point, Chunk>::empty(),
            world.crowd() == Map::<Point, Dude>::empty(),
            world.terrain().open_regions() == Map::<Point, Region>::empty(),
            world.terrain().closed_files() == Map::<Point, Seq<u8>>::empty(),
            world.observer_position() == (Point { x: 0, y: 0 }),
            world.codec_used() == codec,
            world.generator_used() == gen,
            world.generated() == Seq::<Point>::empty(),
    {
        World::on_regions(RegionManager::new(), codec, gen)
    }

    /// The chunks that cover a rectangle of `width` by `height` cells whose first cell is the
    /// first cell of the world.
    pub open spec fn covers(width: int, height: int, p: Point) -> bool {
        &&& 0 <= p.x && p.x * CHUNK_WIDTH < width
        &&& 0 <= p.y && p.y * CHUNK_WIDTH < height
    }

    /// A world of floor, as large as asked for and no smaller than whole chunks: the chunks
    /// that cover the rectangle of the given size are loaded, nobody stands on them, and
    /// nothing is saved yet.
    pub fn new(size: Point, codec: K, gen: G) -> (world: Self)
        requires
            size.x > 0,
            size.y > 0,
        ensures
            world.wf(),
            forall|p: Point|
                world.resident().contains_key(p) <==> Self::covers(size.x as int, size.y as int, p),
            forall|p: Point|
                world.resident().contains_key(p) ==> (#[trigger] world.resident()[p]).cells()
                    == Seq::new(
                    CHUNK_SIZE as nat,
                    |i: int| Cell { color: Color::White, kind: CellKind::Floor },
                ),
            world.crowd() == Map::<Point, Dude>::empty(),
            forall|index: RegionIndex| #[trigger]
                world.terrain().region_file(index) == empty_region_file(),
            world.observer_position() == (Point { x: 0, y: 0 }),
            world.codec_used() == codec,
            world.generator_used() == gen,
            world.generated() == Seq::<Point>::empty(),
    {
        let mut world: Self = World::new_empty(codec, gen);
        world.generate_chunks(size.x, size.y);
        world
    }

    /// Loads chunks of floor that cover a rectangle of `width` by `height` cells.
    fn generate_chunks(&mut self, width: i32, height: i32)
        requires
            width > 0,
            height > 0,
            old(self).wf(),
            old(self).resident() == Map::<Point, Chunk>::empty(),
        ensures
            final(self).wf(),
            forall|p: Point|
                final(self).resident().contains_key(p) <==> Self::covers(
                    width as int,
                    height as int,
                    p,
                ),
            forall|p: Point|
                final(self).resident().contains_key(p) ==> (#[trigger] final(self).resident()[p]).cells()
                    == Seq::new(
                    CHUNK_SIZE as nat,
                    |i: int| Cell { color: Color::White, kind: CellKind::Floor },
                ),
            final(self).crowd() == old(self).crowd(),
            forall|index: RegionIndex| #[trigger]
                final(self).terrain().region_file(index) == old(self).terrain().region_file(index),
            final(self).observer_position() == old(self).observer_position(),
            final(self).codec_used() == old(self).codec_used(),
            final(self).generator_used() == old(self).generator_used(),
            final(self).generated() == old(self).generated(),
    {
        let columns: i32 = (width - 1) / CHUNK_WIDTH + 1;
        let rows: i32 = (height - 1) / CHUNK_WIDTH + 1;
        let floor: Cell = Cell::new(CellKind::Floor, Color::White);
        let mut i: i32 = 0;
        while i < columns
            invariant
                0 <= i <= columns,
                columns == (width - 1) / (CHUNK_WIDTH as int) + 1,
                rows == (height - 1) / (CHUNK_WIDTH as int) + 1,
                width > 0,
                height > 0,
                floor == (Cell { color: Color::White, kind: CellKind::Floor }),
                self.wf(),
                forall|p: Point|
                    self.resident().contains_key(p) <==> 0 <= p.x < i && 0 <= p.y < rows,
                forall|p: Point|
                    self.resident().contains_key(p) ==> (#[trigger] self.resident()[p]).cells()
                        == Seq::new(CHUNK_SIZE as nat, |i: int| floor),
                self.crowd() == old(self).crowd(),
                forall|index: RegionIndex| #[trigger]
                    self.terrain().region_file(index) == old(self).terrain().region_file(index),
                self.observer_position() == old(self).observer_position(),
                self.codec_used() == old(self).codec_used(),
                self.generator_used() == old(self).generator_used(),
                self.generated() == old(self).generated(),
            decreases columns - i,
        {
            let mut j: i32 = 0;
            while j < rows
                invariant
                    0 <= i < columns,
                    0 <= j <= rows,
                    floor == (Cell { color: Color::White, kind: CellKind::Floor }),
                    self.wf(),
                    forall|p: Point|
                        self.resident().contains_key(p) <==> (0 <= p.x < i && 0 <= p.y < rows) || (
                        p.x == i && 0 <= p.y < j),
                    forall|p: Point|
                        self.resident().contains_key(p) ==> (#[trigger] self.resident()[p]).cells()
                            == Seq::new(CHUNK_SIZE as nat, |i: int| floor),
                    self.crowd() == old(self).crowd(),
                    forall|index: RegionIndex| #[trigger]
                        self.terrain().region_file(index) == old(self).terrain().region_file(index),
                    self.observer_position() == old(self).observer_position(),
                    self.codec_used() == old(self).codec_used(),
                    self.generator_used() == old(self).generator_used(),
                    self.generated() == old(self).generated(),
                decreases rows - j,
            {
                let index: ChunkIndex = ChunkIndex::new(i, j);
                let ghost before = *self;
                self.chunks.insert(index.0, Chunk::new(floor));
                self.regions.notify_chunk_creation(&index);
                proof {
                    assert forall|other: ChunkIndex|
                        #![trigger self.is_loaded(other)]
                        #![trigger self.terrain().chunk_unsaved(other)]
                        self.is_loaded(other) <==> self.terrain().chunk_unsaved(other) by {
                        if other != index {
                            assert(other.0 != index.0);
                            assert(before.is_loaded(other) <==> before.terrain().chunk_unsaved(
                                other,
                            ));
                        }
                    }
                    assert forall|index: RegionIndex| #[trigger]
                        self.terrain().region_file(index) == old(self).terrain().region_file(
                            index,
                        ) by {
                        assert(before.terrain().region_file(index)
                            == old(self).terrain().region_file(index));
                    }
                    assert forall|p: Point| self.resident().contains_key(p) implies
                        (#[trigger] self.resident()[p]).cells()
                        == Seq::new(CHUNK_SIZE as nat, |i: int| floor) by {
                        if p != index.0 {
                            assert(before.resident().contains_key(p));
                        }
                    }
                    assert forall|p: Point|
                        self.resident().contains_key(p) <==> (0 <= p.x < i && 0 <= p.y < rows) || (p.x
                            == i && 0 <= p.y < j + 1) by {
                        assert(before.resident().contains_key(p) <==> (0 <= p.x < i && 0 <= p.y < rows)
                            || (p.x == i && 0 <= p.y < j));
                        assert(self.resident().contains_key(p) <==> before.resident().contains_key(p)
                            || p == index.0);
                    }
                }
                j += 1;
            }
            i += 1;
        }
        proof {
            assert forall|p: Point|
                self.resident().contains_key(p) <==> Self::covers(width as int, height as int, p) by {
                lemma_floor_div_mod(width - 1, CHUNK_WIDTH as int);
                lemma_floor_div_mod(height - 1, CHUNK_WIDTH as int);
            }
        }
    }

    /// The position around which chunks are loaded.
    pub fn observer(&self) -> (pos: WorldPosition)
        ensures
            pos == self.observer_position(),
    {
        self.observer
    }

    /// Moves the observer.
    pub fn set_observer(&mut self, pos: WorldPosition)
        ensures
            final(self).observer_position() == pos,
            final(self).resident() == old(self).resident(),
            final(self).crowd() == old(self).crowd(),
            final(self).terrain() == old(self).terrain(),
            final(self).codec_used() == old(self).codec_used(),
            final(self).generator_used() == old(self).generator_used(),
            final(self).generated() == old(self).generated(),
            final(self).storage_wf() == old(self).storage_wf(),
    {
        self.observer = pos;
    }

    /// The regions of the save.
    pub fn regions(&self) -> (regions: &RegionManager)
        ensures
            *regions == self.terrain(),
    {
        &self.regions
    }

    /// The generator that makes new chunks.
    pub fn generator(&self) -> (gen: &G)
        ensures
            *gen == self.generator_used(),
    {
        &self.gen
    }

    pub fn chunk_loaded(&self, index: &ChunkIndex) -> (loaded: bool)
        requires
            self.wf(),
        ensures
            loaded == self.is_loaded(*index),
    {
        self.chunks.contains_key(&index.0)
    }

    /// The indices of the loaded chunks, each once, in the order in which they were loaded.
    pub fn chunk_indices(&self) -> (indices: Vec<ChunkIndex>)
        requires
            self.wf(),
        ensures
            indices@ == self.chunk_order(),
            indices@.len() == self.resident().len(),
            forall|i: int, j: int| 0 <= i < j < indices@.len() ==> indices@[i] != indices@[j],
            forall|index: ChunkIndex| indices@.contains(index) <==> self.is_loaded(index),
    {
        let keys: Vec<Point> = self.chunks.keys();
        let count: usize = self.chunks.len();
        let mut indices: Vec<ChunkIndex> = Vec::new();
        let mut i: usize = 0;
        while i < keys.len()
            invariant
                i <= keys@.len(),
                indices@.len() == i,
                forall|j: int| 0 <= j < i ==> indices@[j] == ChunkIndex(keys@[j]),
            decreases keys@.len() - i,
        {
            indices.push(ChunkIndex(keys[i]));
            i += 1;
        }
        proof {
            assert(indices@ =~= self.chunk_order());
            assert forall|index: ChunkIndex| indices@.contains(index) <==> self.is_loaded(index) by {
                if indices@.contains(index) {
                    let j = choose|j: int| 0 <= j < indices@.len() && indices@[j] == index;
                    assert(keys@.contains(keys@[j]));
                }
                if self.is_loaded(index) {
                    assert(keys@.contains(index.0));
                    let j = choose|j: int| 0 <= j < keys@.len() && keys@[j] == index.0;
                    assert(indices@[j] == index);
                }
            }
        }
        indices
    }

    /// The number of loaded chunks.
    pub fn chunk_count(&self) -> (count: usize)
        requires
            self.wf(),
        ensures
            count == self.resident().len(),
    {
        self.chunks.len()
    }

    pub fn chunk(&self, index: ChunkIndex) -> (chunk: Option<&Chunk>)
        requires
            self.wf(),
        ensures
            match chunk {
                Some(c) => self.is_loaded(index) && *c == self.resident()[index.0],
                None => !self.is_loaded(index),
            },
    {
        self.chunks.get(&index.0)
    }

    /// Lends out the loaded chunk at an index for a change in place.
    pub fn chunk_mut(&mut self, index: ChunkIndex) -> (chunk: Option<&mut Chunk>)
        requires
            old(self).wf(),
        ensures
            final(self).wf(),
            final(self).crowd() == old(self).crowd(),
            final(self).terrain() == old(self).terrain(),
            final(self).observer_position() == old(self).observer_position(),
            final(self).codec_used() == old(self).codec_used(),
            final(self).generator_used() == old(self).generator_used(),
            final(self).generated() == old(self).generated(),
            match chunk {
                Some(c) => {
                    &&& old(self).is_loaded(index)
                    &&& *c == old(self).resident()[index.0]
                    &&& final(self).resident() == old(self).resident().insert(index.0, *final(c))
                },
                None => !old(self).is_loaded(index) && final(self).resident() == old(self).resident(),
            },
    {
        self.chunks.get_mut(&index.0)
    }

    /// The loaded chunk that holds the cell at a world position.
    pub fn chunk_from_world_pos(&self, pos: WorldPosition) -> (chunk: Option<&Chunk>)
        requires
            self.wf(),
        ensures
            match chunk {
                Some(c) => self.is_loaded(ChunkIndex::containing(pos)) && *c
                    == self.resident()[ChunkIndex::containing(pos).0],
                None => !self.is_loaded(ChunkIndex::containing(pos)),
            },
    {
        let index: ChunkIndex = ChunkIndex::from_world_pos(pos);
        self.chunk(index)
    }

    /// Lends out the loaded chunk that holds the cell at a world position for a change in
    /// place.
    pub fn chunk_mut_from_world_pos(&mut self, pos: WorldPosition) -> (chunk: Option<&mut Chunk>)
        requires
            old(self).wf(),
        ensures
            final(self).wf(),
            final(self).crowd() == old(self).crowd(),
            final(self).terrain() == old(self).terrain(),
            final(self).observer_position() == old(self).observer_position(),
            final(self).codec_used() == old(self).codec_used(),
            final(self).generator_used() == old(self).generator_used(),
            final(self).generated() == old(self).generated(),
            match chunk {
                Some(c) => {
                    &&& old(self).is_loaded(ChunkIndex::containing(pos))
                    &&& *c == old(self).resident()[ChunkIndex::containing(pos).0]
                    &&& final(self).resident() == old(self).resident().insert(
                        ChunkIndex::containing(pos).0,
                        *final(c),
                    )
                },
                None => !old(self).is_loaded(ChunkIndex::containing(pos)) && final(self).resident()
                    == old(self).resident(),
            },
    {
        let index: ChunkIndex = ChunkIndex::from_world_pos(pos);
        self.chunk_mut(index)
    }

    /// The cell at a world position, where it is loaded.
    pub open spec fn cell_at(self, pos: WorldPosition) -> Option<Cell> {
        if self.is_loaded(ChunkIndex::containing(pos)) {
            Some(
                self.resident()[ChunkIndex::containing(pos).0].cell_at(
                    ChunkPosition::of_world(pos),
                ),
            )
        } else {
            None
        }
    }

    /// The cell at a world position, if the chunk that holds it is loaded.
    pub fn cell(&self, world_pos: &WorldPosition) -> (cell: Option<&Cell>)
        requires
            self.wf(),
        ensures
            match cell {
                Some(c) => self.cell_at(*world_pos) == Some(*c),
                None => self.cell_at(*world_pos) is None,
            },
    {
        let chunk_pos: ChunkPosition = ChunkPosition::from_world(world_pos);
        let chunk_opt = self.chunk_from_world_pos(*world_pos);
        match chunk_opt {
            Some(chunk) => Some(chunk.cell(chunk_pos)),
            None => None,
        }
    }

    /// Lends out the cell at a world position for a change in place, if the chunk that holds
    /// it is loaded.
    pub fn cell_mut(&mut self, world_pos: &WorldPosition) -> (cell: Option<&mut Cell>)
        requires
            old(self).wf(),
        ensures
            final(self).wf(),
            final(self).crowd() == old(self).crowd(),
            final(self).terrain() == old(self).terrain(),
            final(self).observer_position() == old(self).observer_position(),
            final(self).codec_used() == old(self).codec_used(),
            final(self).generator_used() == old(self).generator_used(),
            final(self).generated() == old(self).generated(),
            final(self).resident().dom() == old(self).resident().dom(),
            forall|p: Point|
                p != ChunkIndex::containing(*world_pos).0 && old(self).resident().contains_key(p)
                    ==> #[trigger] final(self).resident()[p] == old(self).resident()[p],
            match cell {
                Some(c) => {
                    &&& old(self).cell_at(*world_pos) == Some(*c)
                    &&& final(self).resident()[ChunkIndex::containing(*world_pos).0].cells()
                        == old(self).resident()[ChunkIndex::containing(*world_pos).0].cells(
                        ).update(
                        cell_number(ChunkPosition::of_world(*world_pos)),
                        *final(c),
                    )
                },
                None => old(self).cell_at(*world_pos) is None
                    && final(self).resident() == old(self).resident(),
            },
    {
        let chunk_pos: ChunkPosition = ChunkPosition::from_world(world_pos);
        let chunk_opt = self.chunk_mut_from_world_pos(*world_pos);
        match chunk_opt {
            Some(chunk) => Some(chunk.cell_mut(chunk_pos)),
            None => None,
        }
    }

    /// A dude can step on the position: the cell there is loaded and can be walked on, and
    /// neither a dude nor the observer stands on it.
    pub open spec fn walkable(self, pos: WorldPosition) -> bool {
        &&& self.cell_at(pos) matches Some(cell) && cell.kind == CellKind::Floor
        &&& !self.crowd().contains_key(pos)
        &&& self.observer_position() != pos
    }

    pub fn can_walk(&self, pos: &WorldPosition) -> (ok: bool)
        requires
            self.wf(),
        ensures
            ok == self.walkable(*pos),
    {
        let cell_walkable: bool = match self.cell(pos) {
            Some(c) => c.can_walk(),
            None => false,
        };
        let no_dude: bool = self.dudes.get(pos).is_none();
        let no_player: bool = !(self.observer == *pos);
        cell_walkable && no_dude && no_player
    }

    /// Puts a new dude at a position; a dude who stood there is gone.
    pub fn place_dude(&mut self, pos: WorldPosition)
        requires
            old(self).wf(),
        ensures
            final(self).wf(),
            final(self).resident() == old(self).resident(),
            final(self).terrain() == old(self).terrain(),
            final(self).observer_position() == old(self).observer_position(),
            final(self).codec_used() == old(self).codec_used(),
            final(self).generator_used() == old(self).generator_used(),
            final(self).generated() == old(self).generated(),
            final(self).crowd() == old(self).crowd().insert(pos, final(self).crowd()[pos]),
            final(self).crowd()[pos].pos == pos,
            final(self).crowd()[pos].appearance == 'D',
            final(self).crowd()[pos].name@ == "Dood"@,
    {
        self.dudes.insert(pos, Dude::new(pos));
    }

    /// The dude at a position.
    pub fn dude_at(&self, pos: &WorldPosition) -> (dude: Option<&Dude>)
        requires
            self.wf(),
        ensures
            match dude {
                Some(d) => self.crowd().contains_key(*pos) && *d == self.crowd()[*pos],
                None => !self.crowd().contains_key(*pos),
            },
    {
        self.dudes.get(pos)
    }

    /// The positions at which dudes stand, each once.
    pub fn dudes(&self) -> (positions: Vec<WorldPosition>)
        requires
            self.wf(),
        ensures
            positions@ == self.dude_order(),
            positions@.no_duplicates(),
            positions@.len() == self.crowd().len(),
            forall|p: Point| positions@.contains(p) <==> self.crowd().contains_key(p),
    {
        let count: usize = self.dudes.len();
        self.dudes.keys()
    }

    /// Nothing but the loaded chunks, the crowd and the generator differs between two worlds.
    pub open spec fn same_surroundings(self, other: Self) -> bool {
        &&& self.observer_position() == other.observer_position()
        &&& self.codec_used() == other.codec_used()
        &&& forall|index: RegionIndex| #[trigger]
            self.terrain().region_file(index) == other.terrain().region_file(index)
    }

    /// What `generate_chunk` does to a world: the generator is asked for the chunk at the
    /// index, the chunk is loaded with what the generator made, and the crowd has the dudes
    /// that a new chunk gets. No file changes.
    pub open spec fn generation(self, after: Self, index: ChunkIndex) -> bool {
        &&& after.is_loaded(index)
        &&& after.resident() == self.resident().insert(index.0, after.resident()[index.0])
        &&& spawned(
            self.crowd(),
            after.crowd(),
            after.resident()[index.0],
            index,
            self.observer_position(),
            16,
        )
        &&& self.same_surroundings(after)
        &&& after.generated() == self.generated().push(index.0)
    }

    /// What `load_chunk_from_region` does to a world and what it returns: where the save holds
    /// a record for the chunk and the codec finds a payload in it, the chunk is loaded and its
    /// dudes take their places; where the codec finds none, or the save holds no record,
    /// nothing changes. No file changes in any case.
    pub open spec fn loading(self, after: Self, index: ChunkIndex, result: SerialResult<()>) -> bool {
        &&& self.same_surroundings(after)
        &&& after.generator_used() == self.generator_used()
        &&& after.generated() == self.generated()
        &&& match self.terrain().stored_chunk(index) {
            None => {
                &&& result == Err::<(), SerialError>(
                    SerialError::NoChunkInSavefile(local_of(index)),
                )
                &&& after.resident() == self.resident()
                &&& after.crowd() == self.crowd()
            },
            Some(bytes) => match self.codec_used().decoding(bytes) {
                Some(payload) => {
                    &&& result is Ok
                    &&& after.resident() == self.resident().insert(index.0, payload.0)
                    &&& after.crowd() == settled(self.crowd(), payload.1)
                },
                None => {
                    &&& result matches Err(SerialError::EncodingError(_))
                    &&& after.resident() == self.resident()
                    &&& after.crowd() == self.crowd()
                },
            },
        }
    }

    /// Makes the chunk at an index, loads it, gives it its dudes, and tells the region that
    /// owns it that it has a chunk to save. The chunk is one that is not loaded and that the
    /// save does not hold, as `load_chunk_from_region` says of a chunk when it finds no record
    /// for it.
    pub fn generate_chunk(&mut self, index: &ChunkIndex)
        requires
            old(self).wf(),
            !old(self).is_loaded(*index),
            old(self).terrain().stored_chunk(*index) is None,
        ensures
            final(self).wf(),
            old(self).generation(*final(self), *index),
    {
        let chunk: Chunk = self.gen.generate(index);
        proof {
            self.asked@ = self.asked@.push(index.0);
        }
        spawn_dudes(&mut self.dudes, &chunk, index, self.observer);
        self.chunks.insert(index.0, chunk);
        self.regions.notify_chunk_creation(index);
        proof {
            assert forall|other: ChunkIndex|
                #![trigger self.is_loaded(other)]
                #![trigger self.terrain().chunk_unsaved(other)]
                self.is_loaded(other) <==> self.terrain().chunk_unsaved(other) by {
                if other != *index {
                    assert(other.0 != index.0);
                    assert(old(self).is_loaded(other) <==> old(self).terrain().chunk_unsaved(other));
                }
            }
            assert(!old(self).generated().contains(index.0));
            assert forall|p: Point| #[trigger] self.generated().contains(p) implies
                self.resident().contains_key(
                p,
            ) || self.terrain().stored_chunk(ChunkIndex(p)) is Some by {
                if p != index.0 {
                    let i = choose|i: int| 0 <= i < self.generated().len() && self.generated()[i] == p;
                    assert(old(self).generated()[i] == p);
                    assert(old(self).generated().contains(p));
                    assert(self.terrain().region_file(region_of(ChunkIndex(p)))
                        == old(self).terrain().region_file(region_of(ChunkIndex(p))));
                }
            }
            assert(self.generated().no_duplicates()) by {
                assert forall|i: int, j: int|
                    0 <= i < self.generated().len() && 0 <= j < self.generated().len() && i
                        != j implies self.generated()[i] != self.generated()[j] by {
                    if i == old(self).generated().len() {
                        assert(old(self).generated().contains(old(self).generated()[j]));
                    } else if j == old(self).generated().len() {
                        assert(old(self).generated().contains(old(self).generated()[i]));
                    }
                }
            }
        }
    }

    /// Takes what was saved of a chunk into the world: the chunk is loaded, and its dudes take
    /// their places.
    fn load_chunk_internal(&mut self, chunk: SerialChunk, index: &ChunkIndex)
        requires
            old(self).storage_wf(),
        ensures
            final(self).storage_wf(),
            final(self).resident() == old(self).resident().insert(index.0, chunk.chunk),
            final(self).crowd() == settled(old(self).crowd(), chunk.dudes@),
            final(self).terrain() == old(self).terrain(),
            final(self).observer_position() == old(self).observer_position(),
            final(self).codec_used() == old(self).codec_used(),
            final(self).generator_used() == old(self).generator_used(),
            final(self).generated() == old(self).generated(),
    {
        settle_dudes(&mut self.dudes, chunk.dudes);
        self.chunks.insert(index.0, chunk.chunk);
    }

    /// Loads a chunk that is not loaded from the region that owns it.
    pub fn load_chunk_from_region(&mut self, index: &ChunkIndex) -> (result: SerialResult<()>)
        requires
            old(self).wf(),
            !old(self).is_loaded(*index),
        ensures
            final(self).wf(),
            old(self).loading(*final(self), *index, result),
    {
        let chunk: SerialChunk = match self.regions.read_chunk(&self.codec, index) {
            Ok(c) => c,
            Err(e) => {
                proof {
                    assert forall|other: ChunkIndex|
                        #![trigger self.is_loaded(other)]
                        #![trigger self.terrain().chunk_unsaved(other)]
                        self.is_loaded(other) <==> self.terrain().chunk_unsaved(other) by {
                        assert(old(self).is_loaded(other) <==> old(self).terrain().chunk_unsaved(
                            other,
                        ));
                    }
                }
                return Err(e);
            },
        };
        self.load_chunk_internal(chunk, index);
        proof {
            assert forall|other: ChunkIndex|
                #![trigger self.is_loaded(other)]
                #![trigger self.terrain().chunk_unsaved(other)]
                self.is_loaded(other) <==> self.terrain().chunk_unsaved(other) by {
                if other != *index {
                    assert(other.0 != index.0);
                    assert(old(self).is_loaded(other) <==> old(self).terrain().chunk_unsaved(other));
                }
            }
        }
        Ok(())
    }

    /// Loads the chunk at an index: from the save where the save holds it, from the generator
    /// where it does not. A chunk that is loaded already is not loaded again.
    pub fn load_chunk(&mut self, index: &ChunkIndex) -> (result: SerialResult<()>)
        requires
            old(self).wf(),
        ensures
            final(self).wf(),
            old(self).is_loaded(*index) ==> {
                &&& result == Err::<(), SerialError>(SerialError::ChunkAlreadyLoaded(*index))
                &&& old(self).same_state(*final(self))
                &&& final(self).generator_used() == old(self).generator_used()
                &&& final(self).generated() == old(self).generated()
            },
            !old(self).is_loaded(*index) ==> {
                if old(self).terrain().stored_chunk(*index) is Some {
                    old(self).loading(*final(self), *index, result)
                } else {
                    result is Ok && old(self).generation(*final(self), *index)
                }
            },
            result is Ok ==> {
                &&& !old(self).is_loaded(*index)
                &&& final(self).is_loaded(*index)
                &&& final(self).resident().dom() == old(self).resident().dom().insert(index.0)
                &&& final(self).resident().len() == old(self).resident().len() + 1
                &&& forall|p: Point|
                    old(self).resident().contains_key(p) ==> #[trigger] final(self).resident()[p]
                        == old(self).resident()[p]
            },
            result is Err ==> final(self).resident() == old(self).resident() && final(self).crowd()
                == old(self).crowd(),
            old(self).same_surroundings(*final(self)),
    {
        if self.chunk_loaded(index) {
            return Err(SerialError::ChunkAlreadyLoaded(*index));
        }
        proof {
            old(self).lemma_resident_finite();
        }
        match self.load_chunk_from_region(index) {
            Err(SerialError::NoChunkInSavefile(_)) => {
                self.generate_chunk(index);
                proof {
                    assert(self.resident().dom() =~= old(self).resident().dom().insert(index.0));
                }
                Ok(())
            },
            Err(e) => Err(e),
            Ok(()) => {
                proof {
                    assert(self.resident().dom() =~= old(self).resident().dom().insert(index.0));
                }
                Ok(())
            },
        }
    }

    /// The bytes that the codec makes of what is saved of a loaded chunk: its cells, and the
    /// dudes who stand on them.
    pub open spec fn payload_of(self, index: ChunkIndex) -> Option<Seq<u8>> {
        self.codec_used().encoding(self.resident()[index.0], dudes_on(self.crowd(), index))
    }

    /// What `unload_chunk` does to a world in which the chunk is loaded, and what it returns:
    /// where the codec makes bytes of the chunk and its dudes and the region file takes them,
    /// the chunk and the dudes who stand on it leave the world, and the region file is
    /// written; where the codec fails or the write is turned down, nothing changes.
    pub open spec fn unloading(self, after: Self, index: ChunkIndex, result: SerialResult<()>) -> bool {
        &&& after.observer_position() == self.observer_position()
        &&& after.codec_used() == self.codec_used()
        &&& after.generator_used() == self.generator_used()
        &&& after.generated() == self.generated()
        &&& forall|other: RegionIndex|
            other != region_of(index) ==> #[trigger] after.terrain().region_file(other)
                == self.terrain().region_file(other)
        &&& match self.payload_of(index) {
            None => {
                &&& result matches Err(SerialError::EncodingError(_))
                &&& self.same_state(after)
            },
            Some(encoded) => match write_fault(
                self.terrain().region_file(region_of(index)),
                slot_number(local_of(index)),
                encoded,
            ) {
                Some(fault) => {
                    &&& result == Err::<(), SerialError>(fault)
                    &&& self.same_state(after)
                },
                None => {
                    &&& result is Ok
                    &&& after.resident() == self.resident().remove(index.0)
                    &&& after.crowd() == self.crowd().remove_keys(footprint(index))
                    &&& after.terrain().region_file(region_of(index)) == after_write(
                        self.terrain().region_file(region_of(index)),
                        slot_number(local_of(index)),
                        encoded,
                    )
                },
            },
        }
    }

    /// The dudes who stand on the cells of a chunk, in the order of the cells.
    pub fn dudes_in_chunk(&self, index: &ChunkIndex) -> (found: Vec<(WorldPosition, &Dude)>)
        requires
            self.wf(),
        ensures
            dudes_of(found@) == dudes_on(self.crowd(), *index),
    {
        collect_dudes(&self.dudes, index)
    }

    /// Takes a chunk and the dudes who stand on it out of the world.
    fn unload_chunk_internal(&mut self, index: &ChunkIndex) -> (result: SerialResult<SerialChunk>)
        requires
            old(self).storage_wf(),
        ensures
            final(self).storage_wf(),
            final(self).terrain() == old(self).terrain(),
            final(self).observer_position() == old(self).observer_position(),
            final(self).codec_used() == old(self).codec_used(),
            final(self).generator_used() == old(self).generator_used(),
            final(self).generated() == old(self).generated(),
            match result {
                Ok(payload) => {
                    &&& old(self).is_loaded(*index)
                    &&& payload.chunk == old(self).resident()[index.0]
                    &&& payload.dudes@ == dudes_on(old(self).crowd(), *index)
                    &&& final(self).resident() == old(self).resident().remove(index.0)
                    &&& final(self).crowd() == old(self).crowd().remove_keys(footprint(*index))
                },
                Err(e) => {
                    &&& !old(self).is_loaded(*index)
                    &&& e == SerialError::NoChunkInWorld(*index)
                    &&& final(self).resident() == old(self).resident()
                    &&& final(self).crowd() == old(self).crowd()
                },
            },
    {
        let chunk: Chunk = match self.chunks.remove(&index.0) {
            Some(c) => c,
            None => {
                return Err(SerialError::NoChunkInWorld(*index));
            },
        };
        let dudes: Vec<(WorldPosition, Dude)> = remove_dudes_in_chunk(&mut self.dudes, index);
        Ok(SerialChunk { chunk, dudes })
    }

    /// Writes the chunk at an index, with the dudes who stand on it, to the region that owns
    /// it, and takes both out of the world. Where the chunk cannot be written, it stays
    /// loaded.
    pub fn unload_chunk(&mut self, index: &ChunkIndex) -> (result: SerialResult<()>)
        requires
            old(self).wf(),
        ensures
            final(self).wf(),
            !old(self).is_loaded(*index) ==> {
                &&& result == Err::<(), SerialError>(SerialError::NoChunkInWorld(*index))
                &&& old(self).same_state(*final(self))
                &&& final(self).generator_used() == old(self).generator_used()
                &&& final(self).generated() == old(self).generated()
            },
            old(self).is_loaded(*index) ==> old(self).unloading(*final(self), *index, result),
            result is Ok ==> {
                &&& old(self).is_loaded(*index)
                &&& !final(self).is_loaded(*index)
                &&& final(self).resident().len() == old(self).resident().len() - 1
                &&& final(self).terrain().stored_chunk(*index) is Some
                &&& padded(old(self).payload_of(*index).unwrap(), SECTOR_SIZE as nat).is_prefix_of(
                    final(self).terrain().stored_chunk(*index).unwrap(),
                )
            },
            result is Err ==> old(self).same_state(*final(self)),
            forall|other: ChunkIndex|
                other != *index
                    ==> #[trigger] final(self).terrain().stored_chunk(other)
                    == old(self).terrain().stored_chunk(other),
    {
        proof {
            old(self).lemma_resident_finite();
        }
        let chunk: &Chunk = match self.chunks.get(&index.0) {
            Some(c) => c,
            None => {
                return Err(SerialError::NoChunkInWorld(*index));
            },
        };
        let dudes: Vec<(WorldPosition, &Dude)> = collect_dudes(&self.dudes, index);
        match self.regions.write_chunk(&self.codec, chunk, &dudes, index) {
            Ok(()) => {},
            Err(e) => {
                proof {
                    assert forall|other: ChunkIndex|
                        #![trigger self.is_loaded(other)]
                        #![trigger self.terrain().chunk_unsaved(other)]
                        self.is_loaded(other) <==> self.terrain().chunk_unsaved(other) by {
                        assert(old(self).is_loaded(other) <==> old(self).terrain().chunk_unsaved(
                            other,
                        ));
                    }
                    assert forall|other: RegionIndex| #[trigger]
                        old(self).terrain().region_file(other) == self.terrain().region_file(
                            other,
                        ) by {
                        if other != region_of(*index) {
                        }
                    }
                }
                return Err(e);
            },
        }
        let removed = self.unload_chunk_internal(index);
        proof {
            assert forall|other: ChunkIndex|
                #![trigger self.is_loaded(other)]
                #![trigger self.terrain().chunk_unsaved(other)]
                self.is_loaded(other) <==> self.terrain().chunk_unsaved(other) by {
                if other != *index {
                    assert(other.0 != index.0);
                    assert(old(self).is_loaded(other) <==> old(self).terrain().chunk_unsaved(other));
                }
            }
        }
        Ok(())
    }

    /// Loads the chunk at an index, or has it made where the save does not hold it:
    /// `load_chunk` under another name.
    pub fn load_or_gen_chunk(&mut self, index: &ChunkIndex) -> (result: SerialResult<()>)
        requires
            old(self).wf(),
        ensures
            final(self).wf(),
            old(self).is_loaded(*index) ==> {
                &&& result == Err::<(), SerialError>(SerialError::ChunkAlreadyLoaded(*index))
                &&& old(self).same_state(*final(self))
                &&& final(self).generator_used() == old(self).generator_used()
                &&& final(self).generated() == old(self).generated()
            },
            !old(self).is_loaded(*index) ==> {
                if old(self).terrain().stored_chunk(*index) is Some {
                    old(self).loading(*final(self), *index, result)
                } else {
                    result is Ok && old(self).generation(*final(self), *index)
                }
            },
    {
        self.load_chunk(index)
    }

    /// Saves the chunk at an index and unloads it: `unload_chunk` under another name.
    pub fn save_and_unload_chunk(&mut self, index: &ChunkIndex) -> (result: SerialResult<()>)
        requires
            old(self).wf(),
        ensures
            final(self).wf(),
            !old(self).is_loaded(*index) ==> {
                &&& result == Err::<(), SerialError>(SerialError::NoChunkInWorld(*index))
                &&& old(self).same_state(*final(self))
                &&& final(self).generator_used() == old(self).generator_used()
                &&& final(self).generated() == old(self).generated()
            },
            old(self).is_loaded(*index) ==> old(self).unloading(*final(self), *index, result),
    {
        self.unload_chunk(index)
    }

    /// Unloading the chunk from this world fails with the error: the codec makes no bytes of
    /// it, or the region file turns the write down.
    pub open spec fn fails_to_unload(self, index: ChunkIndex, e: SerialError) -> bool {
        match self.payload_of(index) {
            None => e is EncodingError,
            Some(encoded) => write_fault(
                self.terrain().region_file(region_of(index)),
                slot_number(local_of(index)),
                encoded,
            ) == Some(e),
        }
    }

    /// Loading the chunk into this world fails with the error: the save holds a record for
    /// it in which the codec finds no chunk.
    pub open spec fn fails_to_load(self, index: ChunkIndex, e: SerialError) -> bool {
        &&& self.terrain().stored_chunk(index) matches Some(bytes)
            && self.codec_used().decoding(bytes) is None
        &&& e is EncodingError
    }

    /// What the coming of one chunk of the window does to the crowd, in a tick that starts in
    /// this world. A chunk that is loaded already does nothing to it. The dudes of a chunk that
    /// comes from the save take their places. A chunk that the save does not hold is new, and
    /// gets the dudes of a new chunk; `chunks` holds the chunks that are loaded when the tick is
    /// over, and with them what the new chunk is.
    pub open spec fn arrival(
        self,
        chunks: Map<Point, Chunk>,
        index: ChunkIndex,
        before: Map<Point, Dude>,
        after: Map<Point, Dude>,
    ) -> bool {
        if self.is_loaded(index) {
            after == before
        } else {
            match self.terrain().stored_chunk(index) {
                Some(bytes) => self.codec_used().decoding(bytes) matches Some(payload) && after
                    == settled(before, payload.1),
                None => chunks.contains_key(index.0) && spawned(
                    before,
                    after,
                    chunks[index.0],
                    index,
                    self.observer_position(),
                    16,
                ),
            }
        }
    }

    /// The crowds of a list are what the coming of the chunks of another list, one after the
    /// other, makes of the crowd of this world: the first is the crowd of this world, and
    /// each of the others is what the coming of a chunk has made of the one before it.
    pub open spec fn arrivals(
        self,
        chunks: Map<Point, Chunk>,
        order: Seq<Point>,
        crowds: Seq<Map<Point, Dude>>,
    ) -> bool {
        &&& crowds.len() == order.len() + 1
        &&& crowds[0] == self.crowd()
        &&& forall|j: int|
            0 <= j < order.len() ==> self.arrival(
                chunks,
                ChunkIndex(#[trigger] order[j]),
                crowds[j],
                crowds[j + 1],
            )
    }

    /// The cells of the chunks that leave in a tick.
    pub open spec fn leaving_cells(self) -> Set<Point> {
        Set::new(|p: Point| self.leaves(ChunkIndex::containing(p)))
    }

    /// The chunk on which the observer stands.
    pub open spec fn center(self) -> ChunkIndex {
        ChunkIndex::containing(self.observer_position())
    }

    /// The chunk was loaded and lies outside the window around the observer: a tick writes it
    /// back.
    pub open spec fn leaves(self, index: ChunkIndex) -> bool {
        self.is_loaded(index) && !window(self.center()).contains(index.0)
    }

    /// The chunk at the index is in the world `after` what the codec finds in the record that
    /// the save of the world `self` holds for it.
    pub open spec fn comes_from_save(self, after: Self, index: ChunkIndex) -> bool {
        &&& self.terrain().stored_chunk(index) matches Some(bytes)
            && self.codec_used().decoding(bytes) matches Some(payload)
            && after.resident()[index.0] == payload.0
    }

    /// The chunk has left this world for the world `after` with the dudes of a crowd: the
    /// codec makes bytes of its cells and of the dudes of the crowd who stand on it, and its
    /// record in the save of `after` starts with these bytes, padded to whole sectors.
    pub open spec fn left_with(self, after: Self, crowd: Map<Point, Dude>, index: ChunkIndex) -> bool {
        &&& self.codec_used().encoding(self.resident()[index.0], dudes_on(crowd, index)) is Some
        &&& after.terrain().stored_chunk(index) is Some
        &&& padded(
            self.codec_used().encoding(self.resident()[index.0], dudes_on(crowd, index)).unwrap(),
            SECTOR_SIZE as nat,
        ).is_prefix_of(after.terrain().stored_chunk(index).unwrap())
    }

    /// The chunk is new in a tick that starts in this world: it lies in the window around the
    /// observer, it is not loaded, and the save holds no record for it.
    pub open spec fn is_new(self, index: ChunkIndex) -> bool {
        &&& window(self.center()).contains(index.0)
        &&& !self.is_loaded(index)
        &&& self.terrain().stored_chunk(index) is None
    }

    /// What `update_chunks` does to a world and what it returns.
    ///
    /// Where the loaded chunks are those of the window around the observer already, nothing
    /// changes, no file either.
    ///
    /// Where all goes well, the loaded chunks are those of the window afterwards. A chunk
    /// that was loaded and lies in the window is what it was. A chunk of the window that was
    /// not loaded and has a record in the save is what the codec finds in the record. Every
    /// chunk that was loaded and lies outside the window has a record in the save that starts
    /// with what is saved of it, its cells and the dudes who stood on it when the chunks of the
    /// window had come, and nobody stands on it any more. No region stays open that has nothing left to write. The crowd
    /// is what the coming of the chunks of the window, in some order, has made of it, without
    /// those who stood on chunks that have left.
    ///
    /// Whatever happens, the save holds for every chunk that does not leave what it held
    /// before, and wherever somebody stood, but on a chunk that leaves, somebody stands; and a
    /// chunk that is loaded afterwards lies in the window, or was loaded and is what it was.
    /// The generator is asked for new chunks and for no others, and where all goes well, for
    /// every new chunk.
    /// Where something goes wrong, a chunk of the window cannot be loaded, or a chunk outside
    /// it cannot be unloaded.
    pub open spec fn ticking(self, after: Self, result: SerialResult<()>) -> bool {
        &&& after.observer_position() == self.observer_position()
        &&& after.codec_used() == self.codec_used()
        &&& self.resident().dom() == window(self.center()) ==> {
            &&& result is Ok
            &&& self.same_state(after)
            &&& after.generator_used() == self.generator_used()
            &&& after.generated() == self.generated()
        }
        &&& result is Ok ==> {
            &&& after.resident().dom() == window(self.center())
            &&& forall|p: Point|
                self.resident().contains_key(p) && window(self.center()).contains(p)
                    ==> #[trigger] after.resident()[p] == self.resident()[p]
            &&& forall|index: ChunkIndex|
                window(self.center()).contains(index.0) && !self.is_loaded(index)
                    && self.terrain().stored_chunk(index) is Some ==> #[trigger] self.comes_from_save(
                    after,
                    index,
                )
            &&& forall|index: ChunkIndex|
                self.leaves(index) ==> #[trigger] after.terrain().stored_chunk(index) is Some
            &&& forall|index: RegionIndex| #[trigger]
                after.terrain().is_open(index) ==> after.terrain().open_regions()[index.0].unsaved()
                    != Set::<Point>::empty()
            &&& exists|order: Seq<Point>, crowds: Seq<Map<Point, Dude>>|
                {
                    &&& order.no_duplicates()
                    &&& forall|p: Point| order.contains(p) <==> window(self.center()).contains(p)
                    &&& #[trigger] self.arrivals(after.resident(), order, crowds)
                    &&& after.crowd() == crowds.last().remove_keys(self.leaving_cells())
                    &&& forall|index: ChunkIndex|
                        self.leaves(index) ==> #[trigger] self.left_with(
                            after,
                            crowds.last(),
                            index,
                        )
                }
        }
        &&& forall|p: Point| #[trigger]
            after.resident().contains_key(p) ==> window(self.center()).contains(p) || (
            self.resident().contains_key(p) && after.resident()[p] == self.resident()[p])
        &&& self.generated().is_prefix_of(after.generated())
        &&& forall|p: Point| #[trigger]
            after.generated().contains(p) ==> self.generated().contains(p) || self.is_new(
                ChunkIndex(p),
            )
        &&& result is Ok ==> forall|index: ChunkIndex| #[trigger]
            self.is_new(index) ==> after.generated().contains(index.0)
        &&& forall|index: ChunkIndex|
            !self.leaves(index) ==> #[trigger] after.terrain().stored_chunk(index)
                == self.terrain().stored_chunk(index)
        &&& result is Ok ==> forall|p: Point|
            self.leaves(ChunkIndex::containing(p)) ==> !(#[trigger] after.crowd().contains_key(p))
        &&& forall|p: Point|
            self.crowd().contains_key(p) && !self.leaves(ChunkIndex::containing(p))
                ==> #[trigger] after.crowd().contains_key(p)
        &&& result matches Err(e) ==> {
            ||| exists|index: ChunkIndex|
                window(self.center()).contains(index.0) && !after.is_loaded(index)
                    && #[trigger] after.fails_to_load(index, e)
            ||| exists|index: ChunkIndex|
                !window(self.center()).contains(index.0) && after.is_loaded(index)
                    && #[trigger] after.fails_to_unload(index, e)
        }
    }

    /// Brings the loaded part of the world in line with the observer: loads the chunks of the
    /// window around the observer that are not loaded, then writes back and unloads the loaded
    /// chunks that lie outside it, then lets the regions go that have nothing left to write.
    /// Stops at the first chunk that cannot be loaded or written.
    #[verifier::rlimit(30)]
    pub fn update_chunks(&mut self) -> (result: SerialResult<()>)
        requires
            old(self).wf(),
        ensures
            final(self).wf(),
            old(self).ticking(*final(self), result),
    {
        let center: ChunkIndex = ChunkIndex::from_world_pos(self.observer);
        let relevant: PointSet = relevant_chunks(center);
        let wanted: Vec<Point> = relevant.items();
        let ghost mut crowds: Seq<Map<Point, Dude>> = seq![self.crowd()];
        let mut i: usize = 0;
        while i < wanted.len()
            invariant
                i <= wanted@.len(),
                self.wf(),
                relevant.wf(),
                center == old(self).center(),
                relevant@ == window(center),
                old(self).generated().is_prefix_of(self.generated()),
                forall|p: Point| #[trigger]
                    self.generated().contains(p)
                        ==> old(self).generated().contains(p) || old(self).is_new(ChunkIndex(p)),
                forall|j: int|
                    0 <= j < i && old(self).is_new(ChunkIndex(#[trigger] wanted@[j]))
                        ==> self.generated().contains(wanted@[j]),
                wanted@.no_duplicates(),
                forall|p: Point| wanted@.contains(p) <==> relevant@.contains(p),
                crowds.len() == i + 1,
                crowds[0] == old(self).crowd(),
                crowds[i as int] == self.crowd(),
                forall|j: int|
                    0 <= j < i ==> old(self).arrival(
                        self.resident(),
                        ChunkIndex(#[trigger] wanted@[j]),
                        crowds[j],
                        crowds[j + 1],
                    ),
                forall|j: int|
                    i <= j < wanted@.len() && self.resident().contains_key(#[trigger] wanted@[j])
                        ==> old(self).resident().contains_key(wanted@[j]),
                old(self).same_surroundings(*self),
                forall|p: Point|
                    old(self).resident().contains_key(p) ==> #[trigger] self.resident().contains_key(
                        p,
                    ) && self.resident()[p] == old(self).resident()[p],
                forall|p: Point| #[trigger]
                    self.resident().contains_key(p) ==> old(self).resident().contains_key(p)
                        || window(center).contains(p),
                forall|j: int| 0 <= j < i ==> self.resident().contains_key(#[trigger] wanted@[j]),
                forall|index: ChunkIndex|
                    self.is_loaded(index) && !old(self).is_loaded(index)
                        && old(self).terrain().stored_chunk(index) is Some
                        ==> #[trigger] old(self).comes_from_save(
                        *self,
                        index,
                    ),
                forall|p: Point|
                    old(self).crowd().contains_key(p) ==> #[trigger] self.crowd().contains_key(p),
                old(self).resident().dom() == window(center) ==> old(self).same_state(*self)
                    && self.generator_used() == old(self).generator_used() && self.generated()
                    == old(self).generated(),
            decreases wanted@.len() - i,
        {
            let idx: ChunkIndex = ChunkIndex(wanted[i]);
            assert(wanted@.contains(wanted@[i as int]));
            let ghost arrived = crowds;
            if !self.chunk_loaded(&idx) {
                let ghost before = *self;
                assert(!(old(self).resident().dom() == window(center))) by {
                    assert(window(center).contains(idx.0));
                    assert(!old(self).resident().dom().contains(idx.0));
                }
                match self.load_chunk(&idx) {
                    Ok(()) => {},
                    Err(e) => {
                        proof {
                            assert forall|index: ChunkIndex| #[trigger]
                                self.terrain().stored_chunk(index)
                                    == old(self).terrain().stored_chunk(index) by {
                                assert(old(self).terrain().region_file(region_of(index))
                                    == before.terrain().region_file(region_of(index)));
                            }
                            assert(self.fails_to_load(idx, e));
                        }
                        return Err(e);
                    },
                }
                proof {
                    assert forall|p: Point|
                        old(self).resident().contains_key(p) implies
                            #[trigger] self.resident().contains_key(
                            p,
                        ) && self.resident()[p] == old(self).resident()[p] by {
                        assert(before.resident().contains_key(p));
                    }
                    assert forall|p: Point| #[trigger]
                        self.resident().contains_key(p) implies old(self).resident().contains_key(p)
                            || window(center).contains(p) by {
                        if p != idx.0 {
                            assert(before.resident().dom().insert(idx.0).contains(p));
                            assert(before.resident().contains_key(p));
                        }
                    }
                    assert forall|j: int| 0 <= j < i + 1 implies self.resident().contains_key(
                        #[trigger] wanted@[j],
                    ) by {
                        if j < i {
                            assert(before.resident().contains_key(wanted@[j]));
                            assert(before.resident().dom().insert(idx.0).contains(wanted@[j]));
                        }
                    }
                    assert(old(self).same_surroundings(*self)) by {
                        assert forall|index: RegionIndex| #[trigger]
                            old(self).terrain().region_file(index) == self.terrain().region_file(
                                index,
                            ) by {
                            assert(old(self).terrain().region_file(index)
                                == before.terrain().region_file(index));
                        }
                    }
                    assert forall|index: ChunkIndex|
                        self.is_loaded(index) && !old(self).is_loaded(index)
                            && old(self).terrain().stored_chunk(index) is Some implies
                            #[trigger] old(self).comes_from_save(*self, index) by {
                        assert(old(self).terrain().region_file(region_of(index))
                            == before.terrain().region_file(region_of(index)));
                        if index != idx {
                            assert(index.0 != idx.0);
                            assert(before.is_loaded(index));
                            assert(old(self).comes_from_save(before, index));
                        }
                    }
                    assert forall|p: Point| old(self).crowd().contains_key(p) implies
                        #[trigger] self.crowd().contains_key(
                        p,
                    ) by {
                        assert(before.crowd().contains_key(p));
                        if before.terrain().stored_chunk(idx) is Some {
                            let bytes = before.terrain().stored_chunk(idx).unwrap();
                            let payload = before.codec_used().decoding(bytes).unwrap();
                            lemma_settled_keeps(before.crowd(), payload.1, p);
                        }
                    }
                    assert(!old(self).is_loaded(idx));
                    assert(old(self).terrain().stored_chunk(idx) == before.terrain().stored_chunk(
                        idx,
                    )) by {
                        assert(old(self).terrain().region_file(region_of(idx))
                            == before.terrain().region_file(region_of(idx)));
                    }
                    if before.terrain().stored_chunk(idx) is None {
                        assert(self.generated() == before.generated().push(idx.0));
                        assert(old(self).is_new(idx));
                        assert(self.generated()[before.generated().len() as int] == idx.0);
                        assert forall|p: Point| #[trigger] self.generated().contains(p) implies
                            old(self).generated().contains(p)
                                || old(self).is_new(ChunkIndex(p)) by {
                            let n = choose|n: int| 0 <= n < self.generated().len()
                                && self.generated()[n] == p;
                            if n < before.generated().len() {
                                assert(before.generated()[n] == p);
                                assert(before.generated().contains(p));
                            }
                        }
                        assert forall|j: int|
                            0 <= j < i + 1
                                && old(self).is_new(ChunkIndex(#[trigger] wanted@[j])) implies
                                    self.generated().contains(
                            wanted@[j],
                        ) by {
                            if j < i {
                                assert(before.generated().contains(wanted@[j]));
                                let n = choose|n: int| 0 <= n < before.generated().len()
                                    && before.generated()[n] == wanted@[j];
                                assert(self.generated()[n] == wanted@[j]);
                            }
                        }
                    } else {
                        assert(self.generated() == before.generated());
                        assert(!old(self).is_new(idx));
                    }
                    crowds = arrived.push(self.crowd());
                    assert(old(self).terrain().stored_chunk(idx) == before.terrain().stored_chunk(
                        idx,
                    )) by {
                        assert(old(self).terrain().region_file(region_of(idx))
                            == before.terrain().region_file(region_of(idx)));
                    }
                    assert(old(self).arrival(
                        self.resident(),
                        idx,
                        before.crowd(),
                        self.crowd(),
                    ));
                    assert forall|j: int| 0 <= j < i + 1 implies old(self).arrival(
                        self.resident(),
                        ChunkIndex(#[trigger] wanted@[j]),
                        crowds[j],
                        crowds[j + 1],
                    ) by {
                        if j < i {
                            assert(wanted@[j] != wanted@[i as int]);
                            assert(old(self).arrival(
                                before.resident(),
                                ChunkIndex(wanted@[j]),
                                arrived[j],
                                arrived[j + 1],
                            ));
                            assert(before.resident().contains_key(wanted@[j]));
                        }
                    }
                    assert forall|j: int|
                        i + 1 <= j < wanted@.len() && self.resident().contains_key(
                            #[trigger] wanted@[j],
                        ) implies old(self).resident().contains_key(wanted@[j]) by {
                        assert(wanted@[j] != wanted@[i as int]);
                        assert(before.resident().contains_key(wanted@[j]));
                    }
                }
            } else {
                proof {
                    crowds = arrived.push(self.crowd());
                    assert(old(self).is_loaded(idx));
                    assert(!old(self).is_new(idx));
                    assert forall|j: int| 0 <= j < i + 1 implies old(self).arrival(
                        self.resident(),
                        ChunkIndex(#[trigger] wanted@[j]),
                        crowds[j],
                        crowds[j + 1],
                    ) by {
                        if j < i {
                            assert(old(self).arrival(
                                self.resident(),
                                ChunkIndex(wanted@[j]),
                                arrived[j],
                                arrived[j + 1],
                            ));
                        }
                    }
                }
            }
            i += 1;
        }
        let indices: Vec<ChunkIndex> = self.chunk_indices();
        let ghost loaded = *self;
        proof {
            assert forall|index: ChunkIndex| #[trigger] old(self).is_new(index) implies
                loaded.generated().contains(
                index.0,
            ) by {
                assert(wanted@.contains(index.0));
                let j = choose|j: int| 0 <= j < wanted@.len() && wanted@[j] == index.0;
                assert(old(self).is_new(ChunkIndex(wanted@[j])));
            }
            assert forall|p: Point| window(center).contains(p) implies loaded.resident().contains_key(
                p,
            ) by {
                assert(wanted@.contains(p));
                let j = choose|j: int| 0 <= j < wanted@.len() && wanted@[j] == p;
                assert(self.resident().contains_key(wanted@[j]));
            }
            assert forall|index: ChunkIndex| #[trigger]
                self.terrain().stored_chunk(index) == old(self).terrain().stored_chunk(index) by {
                assert(old(self).terrain().region_file(region_of(index)) == self.terrain().region_file(
                    region_of(index),
                ));
            }
            assert forall|p: Point| old(self).resident().contains_key(p) implies
                #[trigger] loaded.resident()[p]
                == old(self).resident()[p] by {
                assert(self.resident().contains_key(p));
            }
            assert forall|j: int| 0 <= j < indices@.len() implies self.resident().contains_key(
                (#[trigger] indices@[j]).0,
            ) by {
                assert(indices@.contains(indices@[j]));
            }
        }
        let mut k: usize = 0;
        while k < indices.len()
            invariant
                k <= indices@.len(),
                self.wf(),
                relevant.wf(),
                center == old(self).center(),
                relevant@ == window(center),
                self.observer_position() == old(self).observer_position(),
                self.codec_used() == old(self).codec_used(),
                forall|a: int, b: int| 0 <= a < b < indices@.len() ==> indices@[a] != indices@[b],
                forall|index: ChunkIndex| indices@.contains(index) <==> loaded.is_loaded(index),
                forall|p: Point|
                    loaded.resident().contains_key(p) <==> old(self).resident().contains_key(p)
                        || window(center).contains(p),
                forall|p: Point|
                    old(self).resident().contains_key(p)
                        ==> #[trigger] loaded.resident()[p] == old(self).resident()[p],
                forall|p: Point| #[trigger]
                    self.resident().contains_key(p) ==> loaded.resident().contains_key(p)
                        && self.resident()[p] == loaded.resident()[p],
                forall|p: Point|
                    window(center).contains(p) ==> #[trigger] self.resident().contains_key(p),
                forall|j: int|
                    k <= j < indices@.len() ==> self.resident().contains_key(
                        (#[trigger] indices@[j]).0,
                    ),
                forall|j: int|
                    0 <= j < k && !window(center).contains((#[trigger] indices@[j]).0) ==> {
                        &&& !self.resident().contains_key(indices@[j].0)
                        &&& self.terrain().stored_chunk(indices@[j]) is Some
                    },
                forall|index: ChunkIndex|
                    !old(self).leaves(index)
                        ==> #[trigger] self.terrain().stored_chunk(index)
                        == old(self).terrain().stored_chunk(index),
                forall|p: Point|
                    old(self).crowd().contains_key(p) ==> #[trigger] loaded.crowd().contains_key(p),
                forall|p: Point| #[trigger]
                    self.crowd().contains_key(p) <==> loaded.crowd().contains_key(p) && (
                    self.is_loaded(ChunkIndex::containing(p)) || !old(self).leaves(
                        ChunkIndex::containing(p),
                    )),
                forall|p: Point|
                    self.crowd().contains_key(p) ==> #[trigger] self.crowd()[p] == loaded.crowd()[p],
                forall|j: int|
                    0 <= j < k && !window(center).contains((#[trigger] indices@[j]).0)
                        ==> old(self).left_with(*self, loaded.crowd(), indices@[j]),
                self.generated() == loaded.generated(),
                old(self).generated().is_prefix_of(loaded.generated()),
                forall|p: Point| #[trigger]
                    loaded.generated().contains(p)
                        ==> old(self).generated().contains(p) || old(self).is_new(ChunkIndex(p)),
                forall|index: ChunkIndex| #[trigger]
                    old(self).is_new(index) ==> loaded.generated().contains(index.0),
                crowds.len() == wanted@.len() + 1,
                crowds[0] == old(self).crowd(),
                crowds.last() == loaded.crowd(),
                wanted@.no_duplicates(),
                forall|p: Point| wanted@.contains(p) <==> window(center).contains(p),
                forall|j: int|
                    0 <= j < wanted@.len() ==> old(self).arrival(
                        loaded.resident(),
                        ChunkIndex(#[trigger] wanted@[j]),
                        crowds[j],
                        crowds[j + 1],
                    ),
                old(self).resident().dom() == window(center) ==> old(self).same_state(*self)
                    && self.generator_used() == old(self).generator_used() && self.generated()
                    == old(self).generated(),
            decreases indices@.len() - k,
        {
            let idx: ChunkIndex = indices[k];
            assert(indices@.contains(indices@[k as int]));
            if !relevant.contains(&idx.0) && self.chunk_loaded(&idx) {
                let ghost before = *self;
                assert(old(self).leaves(idx));
                assert(!(old(self).resident().dom() == window(center))) by {
                    assert(old(self).resident().dom().contains(idx.0));
                }
                match self.unload_chunk(&idx) {
                    Ok(()) => {},
                    Err(e) => {
                        proof {
                            assert forall|index: ChunkIndex|
                                !old(self).leaves(index) implies #[trigger] self.terrain().stored_chunk(
                                    index,
                                ) == old(self).terrain().stored_chunk(index) by {
                                assert(self.terrain().stored_chunk(index)
                                    == before.terrain().stored_chunk(index));
                            }
                            assert(self.fails_to_unload(idx, e));
                            assert forall|p: Point|
                                old(self).crowd().contains_key(p) && !old(self).leaves(
                                    ChunkIndex::containing(p),
                                ) implies #[trigger] self.crowd().contains_key(p) by {
                                assert(loaded.crowd().contains_key(p));
                            }
                        }
                        return Err(e);
                    },
                }
                proof {
                    assert forall|p: Point| #[trigger]
                        self.resident().contains_key(p) implies loaded.resident().contains_key(p)
                            && self.resident()[p] == loaded.resident()[p] by {
                        assert(before.resident().contains_key(p));
                    }
                    assert forall|p: Point|
                        window(center).contains(p) implies #[trigger] self.resident().contains_key(
                            p,
                        ) by {
                        assert(before.resident().contains_key(p));
                    }
                    assert forall|j: int| k + 1 <= j < indices@.len() implies
                        self.resident().contains_key(
                        (#[trigger] indices@[j]).0,
                    ) by {
                        assert(indices@[k as int] != indices@[j]);
                        assert(before.resident().contains_key(indices@[j].0));
                    }
                    assert(old(self).left_with(*self, loaded.crowd(), idx)) by {
                        assert(before.resident().contains_key(idx.0));
                        assert(before.resident()[idx.0] == old(self).resident()[idx.0]);
                        assert(agree_on(loaded.crowd(), before.crowd(), footprint(idx))) by {
                            assert forall|p: Point| #[trigger] footprint(idx).contains(p) implies (
                            loaded.crowd().contains_key(p) <==> before.crowd().contains_key(p)) && (
                            loaded.crowd().contains_key(p)
                                ==> loaded.crowd()[p] == before.crowd()[p]) by {
                                assert(ChunkIndex::containing(p) == idx);
                                assert(before.is_loaded(idx));
                                if before.crowd().contains_key(p) {
                                    assert(before.crowd()[p] == loaded.crowd()[p]);
                                }
                            }
                        }
                        lemma_gathered_frame(
                            loaded.crowd(),
                            before.crowd(),
                            idx,
                            CHUNK_SIZE as int,
                        );
                        assert(before.payload_of(idx) is Some);
                    }
                    assert forall|j: int|
                        0 <= j < k + 1
                            && !window(center).contains((#[trigger] indices@[j]).0) implies
                                old(self).left_with(*self, loaded.crowd(), indices@[j]) by {
                        if j < k {
                            assert(indices@[j] != indices@[k as int]);
                            assert(old(self).left_with(before, loaded.crowd(), indices@[j]));
                            assert(self.terrain().stored_chunk(indices@[j])
                                == before.terrain().stored_chunk(indices@[j]));
                        }
                    }
                    assert forall|j: int|
                        0 <= j < k + 1 && !window(center).contains((#[trigger] indices@[j]).0) implies {
                        &&& !self.resident().contains_key(indices@[j].0)
                        &&& self.terrain().stored_chunk(indices@[j]) is Some
                    } by {
                        if j < k {
                            assert(indices@[j] != indices@[k as int]);
                            assert(!before.resident().contains_key(indices@[j].0));
                            assert(self.terrain().stored_chunk(indices@[j])
                                == before.terrain().stored_chunk(indices@[j]));
                        }
                    }
                    assert forall|index: ChunkIndex|
                        !old(self).leaves(index) implies #[trigger] self.terrain().stored_chunk(index)
                            == old(self).terrain().stored_chunk(index) by {
                        assert(self.terrain().stored_chunk(index) == before.terrain().stored_chunk(
                            index,
                        ));
                    }
                    assert forall|p: Point| #[trigger]
                        self.crowd().contains_key(p) <==> loaded.crowd().contains_key(p) && (
                        self.is_loaded(ChunkIndex::containing(p)) || !old(self).leaves(
                            ChunkIndex::containing(p),
                        )) by {
                        let home = ChunkIndex::containing(p);
                        assert(before.crowd().contains_key(p) <==> loaded.crowd().contains_key(p) && (
                        before.is_loaded(home) || !old(self).leaves(home)));
                        assert(footprint(idx).contains(p) <==> home == idx);
                        if home != idx {
                            assert(home.0 != idx.0);
                        }
                    }
                }
            }
            k += 1;
        }
        let ghost unloaded = *self;
        self.regions.prune_empty();
        proof {
            assert forall|other: ChunkIndex|
                #![trigger self.is_loaded(other)]
                #![trigger self.terrain().chunk_unsaved(other)]
                self.is_loaded(other) <==> self.terrain().chunk_unsaved(other) by {
                assert(unloaded.is_loaded(other) <==> unloaded.terrain().chunk_unsaved(other));
            }
            assert forall|index: ChunkIndex| #[trigger]
                self.terrain().stored_chunk(index) == unloaded.terrain().stored_chunk(index) by {
                assert(self.terrain().region_file(region_of(index))
                    == unloaded.terrain().region_file(region_of(index)));
            }
            assert forall|p: Point| self.resident().dom().contains(p) <==> window(center).contains(
                p,
            ) by {
                if window(center).contains(p) {
                    assert(unloaded.resident().contains_key(p));
                }
                if self.resident().contains_key(p) && !window(center).contains(p) {
                    assert(unloaded.resident().contains_key(p));
                    assert(loaded.resident().contains_key(p));
                    assert(loaded.is_loaded(ChunkIndex(p)));
                    assert(indices@.contains(ChunkIndex(p)));
                    let j = choose|j: int| 0 <= j < indices@.len() && indices@[j] == ChunkIndex(p);
                    assert(!self.resident().contains_key(indices@[j].0));
                }
            }
            assert(self.resident().dom() =~= window(center));
            assert forall|p: Point|
                old(self).resident().contains_key(p) && window(center).contains(p) implies
                    #[trigger] self.resident()[p]
                    == old(self).resident()[p] by {
                assert(unloaded.resident().contains_key(p));
                assert(loaded.resident()[p] == old(self).resident()[p]);
            }
            assert forall|index: ChunkIndex|
                window(center).contains(index.0) && !old(self).is_loaded(index)
                    && old(self).terrain().stored_chunk(index) is Some implies
                    #[trigger] old(self).comes_from_save(
                *self,
                index,
            ) by {
                assert(loaded.resident().contains_key(index.0));
                assert(old(self).comes_from_save(loaded, index));
                assert(unloaded.resident().contains_key(index.0));
            }
            assert forall|index: ChunkIndex| old(self).leaves(index) implies
                #[trigger] self.terrain().stored_chunk(
                index,
            ) is Some by {
                assert(loaded.is_loaded(index));
                assert(indices@.contains(index));
                let j = choose|j: int| 0 <= j < indices@.len() && indices@[j] == index;
                assert(unloaded.terrain().stored_chunk(indices@[j]) is Some);
            }
            assert forall|p: Point| old(self).leaves(ChunkIndex::containing(p)) implies
                !(#[trigger] self.crowd().contains_key(
                p,
            )) by {
                let home = ChunkIndex::containing(p);
                assert(!window(center).contains(home.0));
                assert(!self.resident().dom().contains(home.0));
                assert(unloaded.crowd().contains_key(p) <==> loaded.crowd().contains_key(p) && (
                unloaded.is_loaded(home) || !old(self).leaves(home)));
            }
            assert forall|p: Point|
                old(self).crowd().contains_key(p) && !old(self).leaves(
                    ChunkIndex::containing(p),
                ) implies #[trigger] self.crowd().contains_key(p) by {
                assert(loaded.crowd().contains_key(p));
                assert(unloaded.crowd().contains_key(p));
            }
            assert(self.crowd() =~= crowds.last().remove_keys(old(self).leaving_cells())) by {
                assert forall|p: Point|
                    self.crowd().contains_key(p) <==> crowds.last().remove_keys(
                        old(self).leaving_cells(),
                    ).contains_key(p) by {
                    let home = ChunkIndex::containing(p);
                    assert(unloaded.crowd().contains_key(p) <==> loaded.crowd().contains_key(p) && (
                    unloaded.is_loaded(home) || !old(self).leaves(home)));
                    if old(self).leaves(home) {
                        assert(!window(center).contains(home.0));
                        assert(!self.resident().dom().contains(home.0));
                    }
                }
                assert forall|p: Point| self.crowd().contains_key(p) implies #[trigger] self.crowd()[p]
                    == crowds.last().remove_keys(old(self).leaving_cells())[p] by {
                    assert(unloaded.crowd()[p] == loaded.crowd()[p]);
                }
            }
            assert forall|index: ChunkIndex| old(self).leaves(index) implies
                #[trigger] old(self).left_with(*self, crowds.last(), index) by {
                assert(loaded.is_loaded(index));
                assert(indices@.contains(index));
                let j = choose|j: int| 0 <= j < indices@.len() && indices@[j] == index;
                assert(old(self).left_with(unloaded, loaded.crowd(), indices@[j]));
                assert(self.terrain().stored_chunk(index) == unloaded.terrain().stored_chunk(
                    index,
                ));
            }
            assert forall|p: Point| #[trigger] self.resident().contains_key(p) implies window(
                center,
            ).contains(p) || (old(self).resident().contains_key(p)
                && self.resident()[p] == old(self).resident()[p]) by {
                assert(unloaded.resident().contains_key(p));
                assert(loaded.resident().contains_key(p));
            }
            assert(old(self).arrivals(self.resident(), wanted@, crowds)) by {
                assert forall|j: int| 0 <= j < wanted@.len() implies old(self).arrival(
                    self.resident(),
                    ChunkIndex(#[trigger] wanted@[j]),
                    crowds[j],
                    crowds[j + 1],
                ) by {
                    assert(old(self).arrival(
                        loaded.resident(),
                        ChunkIndex(wanted@[j]),
                        crowds[j],
                        crowds[j + 1],
                    ));
                    assert(wanted@.contains(wanted@[j]));
                    assert(unloaded.resident().contains_key(wanted@[j]));
                }
            }
            if old(self).resident().dom() == window(center) {
                assert forall|index: RegionIndex| #[trigger]
                    old(self).terrain().region_file(index) == self.terrain().region_file(index) by {
                    assert(unloaded.terrain().region_file(index) == self.terrain().region_file(
                        index,
                    ));
                }
            }
        }
        Ok(())
    }

    /// The chunk was loaded in the world `self` and its record in the world `after` starts
    /// with what is saved of it: the bytes that the codec makes of its cells and of the dudes
    /// who stood on them, padded to whole sectors.
    pub open spec fn saved_in(self, after: Self, index: ChunkIndex) -> bool {
        &&& self.payload_of(index) is Some
        &&& after.terrain().stored_chunk(index) is Some
        &&& padded(self.payload_of(index).unwrap(), SECTOR_SIZE as nat).is_prefix_of(
            after.terrain().stored_chunk(index).unwrap(),
        )
    }

    /// How far `save` has come from the world `self` in the world `after`: a chunk that is
    /// loaded still is what it was, and so are the dudes who stand on it and its record; a
    /// chunk that is not loaded any more is saved, and the dudes who stood on it are gone; for
    /// a chunk that was not loaded nothing has changed.
    pub open spec fn saving(self, after: Self) -> bool {
        &&& after.observer_position() == self.observer_position()
        &&& after.codec_used() == self.codec_used()
        &&& after.generator_used() == self.generator_used()
        &&& after.generated() == self.generated()
        &&& forall|p: Point| #[trigger]
            after.resident().contains_key(p) ==> self.resident().contains_key(p)
                && after.resident()[p] == self.resident()[p]
        &&& forall|p: Point| #[trigger]
            after.crowd().contains_key(p) <==> self.crowd().contains_key(p) && (!self.is_loaded(
                ChunkIndex::containing(p),
            ) || after.is_loaded(ChunkIndex::containing(p)))
        &&& forall|p: Point|
            after.crowd().contains_key(p) ==> #[trigger] after.crowd()[p] == self.crowd()[p]
        &&& forall|index: ChunkIndex|
            #![trigger after.terrain().stored_chunk(index)]
            #![trigger self.is_loaded(index)]
            if self.is_loaded(index) && !after.is_loaded(index) {
                self.saved_in(after, index)
            } else {
                after.terrain().stored_chunk(index) == self.terrain().stored_chunk(index)
            }
    }

    /// `save` has stopped in the world `after` at the chunk with the number `at` in the order
    /// of the chunks of the world `self`: the chunks before it are not loaded any more, it and
    /// the chunks behind it are loaded, and it cannot be unloaded, for the reason that the
    /// error gives.
    pub open spec fn stopped_at(self, after: Self, at: int, e: SerialError) -> bool {
        &&& 0 <= at < self.chunk_order().len()
        &&& forall|j: int|
            0 <= j < self.chunk_order().len() ==> (after.is_loaded(#[trigger] self.chunk_order()[j])
                <==> at <= j)
        &&& after.fails_to_unload(self.chunk_order()[at], e)
    }

    /// Writes every loaded chunk back and unloads it, in the order of `chunk_indices`, and
    /// stops at the first that cannot be unloaded: the chunks before it are saved, and it and
    /// the chunks behind it stay loaded.
    pub fn save(&mut self) -> (result: SerialResult<()>)
        requires
            old(self).wf(),
        ensures
            final(self).wf(),
            old(self).saving(*final(self)),
            result is Ok <==> final(self).resident() == Map::<Point, Chunk>::empty(),
            result matches Err(e) ==> old(self).stopped_at(
                *final(self),
                old(self).resident().len() - final(self).resident().len(),
                e,
            ),
    {
        let indices: Vec<ChunkIndex> = self.chunk_indices();
        proof {
            old(self).lemma_resident_finite();
        }
        let mut i: usize = 0;
        proof {
            assert forall|j: int| 0 <= j < indices@.len() implies self.resident().contains_key(
                (#[trigger] indices@[j]).0,
            ) by {
                assert(indices@.contains(indices@[j]));
            }
        }
        while i < indices.len()
            invariant
                i <= indices@.len(),
                self.wf(),
                old(self).saving(*self),
                indices@ == old(self).chunk_order(),
                indices@.len() == old(self).resident().len(),
                self.resident().len() == indices@.len() - i,
                forall|a: int, b: int| 0 <= a < b < indices@.len() ==> indices@[a] != indices@[b],
                forall|index: ChunkIndex| indices@.contains(index) <==> old(self).is_loaded(index),
                forall|j: int|
                    i <= j < indices@.len() ==> self.resident().contains_key(
                        (#[trigger] indices@[j]).0,
                    ),
                forall|j: int|
                    0 <= j < i ==> !self.resident().contains_key((#[trigger] indices@[j]).0),
            decreases indices@.len() - i,
        {
            let index: ChunkIndex = indices[i];
            let ghost before = *self;
            proof {
                // What is saved of the chunk is what was to be saved of it at the start.
                assert(before.resident()[index.0] == old(self).resident()[index.0]);
                assert(agree_on(old(self).crowd(), before.crowd(), footprint(index))) by {
                    assert forall|p: Point| #[trigger] footprint(index).contains(p) implies
                        (old(self).crowd().contains_key(p)
                        <==> before.crowd().contains_key(p)) && (old(self).crowd().contains_key(p)
                        ==> old(self).crowd()[p] == before.crowd()[p]) by {
                        assert(before.is_loaded(ChunkIndex::containing(p)));
                        if old(self).crowd().contains_key(p) {
                            assert(before.crowd().contains_key(p));
                            assert(before.crowd()[p] == old(self).crowd()[p]);
                        }
                    }
                }
                lemma_gathered_frame(
                    old(self).crowd(),
                    before.crowd(),
                    index,
                    CHUNK_SIZE as int,
                );
                assert(before.payload_of(index) == old(self).payload_of(index));
            }
            match self.unload_chunk(&index) {
                Ok(()) => {},
                Err(e) => {
                    proof {
                        assert(self.resident().contains_key(index.0));
                        assert(self.fails_to_unload(index, e));
                        assert(self.resident().len() == before.resident().len());
                        assert(old(self).stopped_at(*self, i as int, e)) by {
                            assert forall|j: int| 0 <= j < indices@.len() implies (self.is_loaded(
                                #[trigger] indices@[j],
                            ) <==> i <= j) by {
                                assert(before.is_loaded(indices@[j]) == self.is_loaded(indices@[j]));
                            }
                        }
                        assert(old(self).saving(*self)) by {
                            assert forall|other: ChunkIndex|
                                #![trigger self.terrain().stored_chunk(other)]
                                #![trigger old(self).is_loaded(other)]
                                if old(self).is_loaded(other) && !self.is_loaded(other) {
                                    old(self).saved_in(*self, other)
                                } else {
                                    self.terrain().stored_chunk(other)
                                        == old(self).terrain().stored_chunk(other)
                                } by {
                                assert(self.terrain().stored_chunk(other)
                                    == before.terrain().stored_chunk(other));
                                assert(before.is_loaded(other) == self.is_loaded(other));
                            }
                        }
                    }
                    return Err(e);
                },
            }
            proof {
                assert forall|j: int| i + 1 <= j < indices@.len() implies self.resident().contains_key(
                    (#[trigger] indices@[j]).0,
                ) by {
                    assert(indices@[i as int] != indices@[j]);
                    assert(before.resident().contains_key(indices@[j].0));
                }
                assert forall|j: int| 0 <= j < i + 1 implies !self.resident().contains_key(
                    (#[trigger] indices@[j]).0,
                ) by {
                    if j < i {
                        assert(!before.resident().contains_key(indices@[j].0));
                    }
                }
                assert(old(self).saving(*self)) by {
                    assert forall|p: Point| #[trigger] self.resident().contains_key(p) implies
                        old(self).resident().contains_key(p)
                        && self.resident()[p] == old(self).resident()[p] by {
                        assert(before.resident().contains_key(p));
                    }
                    assert forall|p: Point| #[trigger]
                        self.crowd().contains_key(p)
                            <==> old(self).crowd().contains_key(p)
                            && (!old(self).is_loaded(ChunkIndex::containing(p)) || self.is_loaded(
                            ChunkIndex::containing(p),
                        )) by {
                        let home = ChunkIndex::containing(p);
                        assert(before.crowd().contains_key(p) <==> old(self).crowd().contains_key(p)
                            && (!old(self).is_loaded(home) || before.is_loaded(home)));
                        assert(footprint(index).contains(p) <==> home == index);
                        if home != index {
                            assert(home.0 != index.0);
                        }
                    }
                    assert forall|p: Point| self.crowd().contains_key(p) implies
                        #[trigger] self.crowd()[p]
                        == old(self).crowd()[p] by {
                        assert(before.crowd().contains_key(p));
                        assert(before.crowd()[p] == old(self).crowd()[p]);
                    }
                    assert forall|other: ChunkIndex|
                        #![trigger self.terrain().stored_chunk(other)]
                        #![trigger old(self).is_loaded(other)]
                        if old(self).is_loaded(other) && !self.is_loaded(other) {
                            old(self).saved_in(*self, other)
                        } else {
                            self.terrain().stored_chunk(other) == old(self).terrain().stored_chunk(
                                other,
                            )
                        } by {
                        if other != index {
                            assert(other.0 != index.0);
                            assert(self.terrain().stored_chunk(other)
                                == before.terrain().stored_chunk(other));
                            assert(before.is_loaded(other) == self.is_loaded(other));
                            if old(self).is_loaded(other) && !before.is_loaded(other) {
                                assert(old(self).saved_in(before, other));
                            }
                        } else {
                            assert(old(self).is_loaded(index)) by {
                                assert(indices@.contains(indices@[i as int]));
                            }
                        }
                    }
                }
            }
            i += 1;
        }
        proof {
            assert forall|p: Point| !self.resident().contains_key(p) by {
                if self.resident().contains_key(p) {
                    assert(old(self).is_loaded(ChunkIndex(p)));
                    assert(indices@.contains(ChunkIndex(p)));
                    let j = choose|j: int| 0 <= j < indices@.len() && indices@[j] == ChunkIndex(p);
                    assert(!self.resident().contains_key(indices@[j].0));
                }
            }
            assert(self.resident() =~= Map::<Point, Chunk>::empty());
        }
        Ok(())
    }

    /// The cell at the position is loaded and lies in the rectangle.
    pub open spec fn shows(self, top_left: Point, dimensions: Point, p: Point) -> bool {
        in_rectangle(top_left, dimensions, p) && self.cell_at(p) is Some
    }

    /// The cell at the position is one that `with_cells` has found when it has come to the
    /// cell `number` of the chunk `at`: it is shown, and its chunk lies in a row of chunks
    /// before that of `at`, or in the same row before `at`, or it is a cell of `at` before the
    /// cell `number`.
    pub open spec fn found_before(
        self,
        top_left: Point,
        dimensions: Point,
        at: (int, int),
        number: int,
        p: Point,
    ) -> bool {
        let home = ChunkIndex::containing(p);
        &&& self.shows(top_left, dimensions, p)
        &&& (home.0.y < at.1 || (home.0.y == at.1 && (home.0.x < at.0 || (home.0.x == at.0
            && cell_number(ChunkPosition::of_world(p)) < number))))
    }

    /// The cells of a rectangle of the world, as far as they are loaded, each once with its
    /// position: chunk after chunk, the chunks row after row, and the cells of a chunk row
    /// after row.
    pub fn with_cells(&self, top_left: WorldPosition, dimensions: Point) -> (cells: Vec<
        (Point, Cell),
    >)
        requires
            self.wf(),
            dimensions.x >= 0,
            dimensions.y >= 0,
        ensures
            positions(cells@).no_duplicates(),
            forall|i: int, j: int|
                0 <= i < j < cells@.len() ==> walked_before(
                    (#[trigger] cells@[i]).0,
                    (#[trigger] cells@[j]).0,
                ),
            forall|p: Point|
                positions(cells@).contains(p) <==> self.shows(top_left, dimensions, p),
            forall|i: int|
                0 <= i < cells@.len() ==> self.cell_at((#[trigger] cells@[i]).0) == Some(
                    cells@[i].1,
                ),
    {
        let first: ChunkIndex = ChunkIndex::from_world_pos(top_left);
        let right: i64 = top_left.x as i64 + dimensions.x as i64;
        let bottom: i64 = top_left.y as i64 + dimensions.y as i64;
        let mut cells: Vec<(Point, Cell)> = Vec::new();
        let mut cy: i64 = first.0.y as i64;
        proof {
            lemma_floor_div_mod(top_left.x as int, CHUNK_WIDTH as int);
            lemma_floor_div_mod(top_left.y as int, CHUNK_WIDTH as int);
            assert forall|p: Point|
                positions(cells@).contains(p) <==> self.found_before(
                    top_left,
                    dimensions,
                    (first.0.x as int, cy as int),
                    0,
                    p,
                ) by {
                lemma_floor_div_mod(p.x as int, CHUNK_WIDTH as int);
                lemma_floor_div_mod(p.y as int, CHUNK_WIDTH as int);
            }
        }
        while cy * 16 < bottom
            invariant
                self.wf(),
                dimensions.x >= 0,
                dimensions.y >= 0,
                first == ChunkIndex::containing(top_left),
                right == top_left.x + dimensions.x,
                bottom == top_left.y + dimensions.y,
                first.0.y <= cy,
                (cy - 1) * 16 < bottom,
                positions(cells@).no_duplicates(),
                forall|i: int, j: int|
                    0 <= i < j < cells@.len() ==> walked_before(
                        (#[trigger] cells@[i]).0,
                        (#[trigger] cells@[j]).0,
                    ),
                forall|p: Point|
                    positions(cells@).contains(p) <==> self.found_before(
                        top_left,
                        dimensions,
                        (first.0.x as int, cy as int),
                        0,
                        p,
                    ),
                forall|i: int|
                    0 <= i < cells@.len() ==> self.cell_at((#[trigger] cells@[i]).0) == Some(
                        cells@[i].1,
                    ),
            decreases bottom - cy * 16 + 16,
        {
            let mut cx: i64 = first.0.x as i64;
            while cx * 16 < right
                invariant
                    self.wf(),
                    dimensions.x >= 0,
                    dimensions.y >= 0,
                    first == ChunkIndex::containing(top_left),
                    right == top_left.x + dimensions.x,
                    bottom == top_left.y + dimensions.y,
                    first.0.y <= cy,
                    cy * 16 < bottom,
                    first.0.x <= cx,
                    (cx - 1) * 16 < right,
                    positions(cells@).no_duplicates(),
                    forall|i: int, j: int|
                        0 <= i < j < cells@.len() ==> walked_before(
                            (#[trigger] cells@[i]).0,
                            (#[trigger] cells@[j]).0,
                        ),
                    forall|p: Point|
                        positions(cells@).contains(p) <==> self.found_before(
                            top_left,
                            dimensions,
                            (cx as int, cy as int),
                            0,
                            p,
                        ),
                    forall|i: int|
                        0 <= i < cells@.len() ==> self.cell_at((#[trigger] cells@[i]).0) == Some(
                            cells@[i].1,
                        ),
                decreases right - cx * 16 + 16,
            {
                let index: ChunkIndex = ChunkIndex::new(cx as i32, cy as i32);
                match self.chunks.get(&index.0) {
                    Some(chunk) => {
                        let mut number: usize = 0;
                        while number < CHUNK_SIZE
                            invariant
                                number <= CHUNK_SIZE,
                                self.wf(),
                                index == ChunkIndex(Point { x: cx as i32, y: cy as i32 }),
                                i32::MIN <= cx <= i32::MAX,
                                i32::MIN <= cy <= i32::MAX,
                                right == top_left.x + dimensions.x,
                                bottom == top_left.y + dimensions.y,
                                self.is_loaded(index),
                                *chunk == self.resident()[index.0],
                                positions(cells@).no_duplicates(),
                                forall|i: int, j: int|
                                    0 <= i < j < cells@.len() ==> walked_before(
                                        (#[trigger] cells@[i]).0,
                                        (#[trigger] cells@[j]).0,
                                    ),
                                forall|p: Point|
                                    positions(cells@).contains(p) <==> self.found_before(
                                        top_left,
                                        dimensions,
                                        (cx as int, cy as int),
                                        number as int,
                                        p,
                                    ),
                                forall|i: int|
                                    0 <= i < cells@.len() ==> self.cell_at(
                                        (#[trigger] cells@[i]).0,
                                    ) == Some(cells@[i].1),
                            decreases CHUNK_SIZE - number,
                        {
                            let pos: ChunkPosition = position_of_cell(number);
                            let ghost before = cells@;
                            let mut added: bool = false;
                            let here: Option<Point> = Chunk::checked_world_position(&index, &pos);
                            proof {
                                lemma_floor_div_mod(number as int, CHUNK_WIDTH as int);
                                assert(cell_number(pos) == number);
                            }
                            match here {
                                Some(p) => {
                                    proof {
                                        vstd::arithmetic::div_mod::lemma_fundamental_div_mod_converse(
                                            p.x as int,
                                            CHUNK_WIDTH as int,
                                            index.0.x as int,
                                            pos.0.x as int,
                                        );
                                        vstd::arithmetic::div_mod::lemma_fundamental_div_mod_converse(
                                            p.y as int,
                                            CHUNK_WIDTH as int,
                                            index.0.y as int,
                                            pos.0.y as int,
                                        );
                                        assert(ChunkIndex::containing(p) == index);
                                        assert(ChunkPosition::of_world(p) == pos);
                                    }
                                    if top_left.x <= p.x && (p.x as i64) < right && top_left.y
                                        <= p.y && (p.y as i64) < bottom {
                                        let cell: Cell = *chunk.cell(pos);
                                        proof {
                                            assert(!positions(before).contains(p));
                                            assert(self.cell_at(p) == Some(cell));
                                        }
                                        cells.push((p, cell));
                                        added = true;
                                        proof {
                                            assert(positions(cells@) =~= positions(before).push(p));
                                            assert forall|i: int, j: int|
                                                0 <= i < j < cells@.len() implies walked_before(
                                                (#[trigger] cells@[i]).0,
                                                (#[trigger] cells@[j]).0,
                                            ) by {
                                                if j == before.len() {
                                                    assert(positions(before)[i] == before[i].0);
                                                    assert(positions(before).contains(before[i].0));
                                                } else {
                                                    assert(walked_before(before[i].0, before[j].0));
                                                }
                                            }
                                        }
                                    }
                                },
                                None => {},
                            }
                            proof {
                                assert forall|q: Point|
                                    positions(cells@).contains(q) <==> self.found_before(
                                        top_left,
                                        dimensions,
                                        (cx as int, cy as int),
                                        number + 1,
                                        q,
                                    ) by {
                                    lemma_world_pos_split(q);
                                    let was = self.found_before(
                                        top_left,
                                        dimensions,
                                        (cx as int, cy as int),
                                        number as int,
                                        q,
                                    );
                                    assert(positions(before).contains(q) <==> was);
                                    if added {
                                        let p = here.unwrap();
                                        assert(positions(cells@) == positions(before).push(p));
                                        if positions(cells@).contains(q) {
                                            let i = choose|i: int|
                                                0 <= i < positions(cells@).len() && positions(
                                                    cells@,
                                                )[i] == q;
                                            if i < before.len() {
                                                assert(positions(before)[i] == q);
                                            }
                                        }
                                        if positions(before).contains(q) {
                                            let i = choose|i: int|
                                                0 <= i < positions(before).len() && positions(
                                                    before,
                                                )[i] == q;
                                            assert(positions(cells@)[i] == q);
                                        }
                                        assert(positions(cells@)[before.len() as int] == p);
                                    }
                                    if self.shows(top_left, dimensions, q) && ChunkIndex::containing(
                                        q,
                                    ) == index && cell_number(ChunkPosition::of_world(q))
                                        == number {
                                        assert(ChunkPosition::of_world(q) == pos) by {
                                            let qp = ChunkPosition::of_world(q);
                                            vstd::arithmetic::div_mod::lemma_fundamental_div_mod_converse(
                                                number as int,
                                                CHUNK_WIDTH as int,
                                                qp.0.y as int,
                                                qp.0.x as int,
                                            );
                                        }
                                        assert(here == Some(q));
                                    }
                                }
                            }
                            number += 1;
                        }
                    },
                    None => {
                        proof {
                            assert forall|q: Point|
                                self.found_before(
                                    top_left,
                                    dimensions,
                                    (cx as int, cy as int),
                                    0,
                                    q,
                                ) <==> self.found_before(
                                    top_left,
                                    dimensions,
                                    (cx as int, cy as int),
                                    CHUNK_SIZE as int,
                                    q,
                                ) by {
                                lemma_world_pos_split(q);
                            }
                        }
                    },
                }
                proof {
                    assert forall|q: Point|
                        positions(cells@).contains(q) <==> self.found_before(
                            top_left,
                            dimensions,
                            (cx + 1, cy as int),
                            0,
                            q,
                        ) by {
                        lemma_world_pos_split(q);
                        let qp = ChunkPosition::of_world(q);
                        assert(0 <= cell_number(qp) < CHUNK_SIZE);
                        assert(positions(cells@).contains(q) <==> self.found_before(
                            top_left,
                            dimensions,
                            (cx as int, cy as int),
                            CHUNK_SIZE as int,
                            q,
                        ));
                    }
                }
                cx += 1;
            }
            proof {
                assert forall|q: Point|
                    positions(cells@).contains(q) <==> self.found_before(
                        top_left,
                        dimensions,
                        (first.0.x as int, cy + 1),
                        0,
                        q,
                    ) by {
                    lemma_world_pos_split(q);
                    lemma_floor_div_mod(top_left.x as int, CHUNK_WIDTH as int);
                    assert(positions(cells@).contains(q) <==> self.found_before(
                        top_left,
                        dimensions,
                        (cx as int, cy as int),
                        0,
                        q,
                    ));
                }
            }
            cy += 1;
        }
        proof {
            assert forall|p: Point|
                positions(cells@).contains(p) <==> self.shows(top_left, dimensions, p) by {
                lemma_world_pos_split(p);
                assert(positions(cells@).contains(p) <==> self.found_before(
                    top_left,
                    dimensions,
                    (first.0.x as int, cy as int),
                    0,
                    p,
                ));
            }
        }
        cells
    }

    /// The crowd after a dude was asked to go from a position to another: where a dude stands
    /// at the first and a dude can step on the second, he stands at the second; else nothing
    /// has changed.
    pub open spec fn after_move(self, crowd: Map<Point, Dude>, from: Point, to: Point) -> Map<
        Point,
        Dude,
    > {
        if crowd.contains_key(from) && !crowd.contains_key(to) && self.observer_position() != to
            && (self.cell_at(to) matches Some(cell) && cell.kind == CellKind::Floor) {
            crowd.remove(from).insert(
                to,
                Dude {
                    pos: to,
                    appearance: crowd[from].appearance,
                    color: crowd[from].color,
                    name: crowd[from].name,
                },
            )
        } else {
            crowd
        }
    }

    /// The crowd after the dudes were asked to go as a list of moves says, one after the
    /// other.
    pub open spec fn after_moves(self, crowd: Map<Point, Dude>, moves: Seq<(Point, Point)>) -> Map<
        Point,
        Dude,
    >
        decreases moves.len(),
    {
        if moves.len() == 0 {
            crowd
        } else {
            self.after_move(
                self.after_moves(crowd, moves.drop_last()),
                moves.last().0,
                moves.last().1,
            )
        }
    }

    /// Asks the dudes to go as a list of moves says, one after the other. A dude goes where
    /// he can walk.
    pub fn move_dudes(&mut self, moves: &Vec<(WorldPosition, WorldPosition)>)
        requires
            old(self).wf(),
        ensures
            final(self).wf(),
            final(self).crowd() == old(self).after_moves(old(self).crowd(), moves@),
            final(self).resident() == old(self).resident(),
            final(self).terrain() == old(self).terrain(),
            final(self).observer_position() == old(self).observer_position(),
            final(self).codec_used() == old(self).codec_used(),
            final(self).generator_used() == old(self).generator_used(),
            final(self).generated() == old(self).generated(),
    {
        let mut i: usize = 0;
        assert(moves@.take(0) =~= Seq::<(Point, Point)>::empty());
        while i < moves.len()
            invariant
                i <= moves@.len(),
                self.wf(),
                self.crowd() == old(self).after_moves(old(self).crowd(), moves@.take(i as int)),
                self.resident() == old(self).resident(),
                self.terrain() == old(self).terrain(),
                self.observer_position() == old(self).observer_position(),
                self.codec_used() == old(self).codec_used(),
                self.generator_used() == old(self).generator_used(),
                self.generated() == old(self).generated(),
            decreases moves@.len() - i,
        {
            let from: Point = moves[i].0;
            let to: Point = moves[i].1;
            let ghost crowd = self.crowd();
            proof {
                let grown = moves@.take(i + 1);
                assert(grown.drop_last() =~= moves@.take(i as int));
                assert(grown.last() == moves@[i as int]);
                assert(forall|p: Point| self.cell_at(p) == old(self).cell_at(p));
            }
            if self.can_walk(&to) {
                match self.dudes.remove(&from) {
                    Some(dude) => {
                        let moved = Dude {
                            pos: to,
                            appearance: dude.appearance,
                            color: dude.color,
                            name: dude.name,
                        };
                        self.dudes.insert(to, moved);
                    },
                    None => {},
                }
            }
            proof {
                assert(self.crowd() == old(self).after_move(crowd, from, to));
            }
            i += 1;
        }
        assert(moves@.take(moves@.len() as int) =~= moves@);
    }

    /// Every move of the list goes from a position to one of the eight next to it.
    pub open spec fn all_steps(moves: Seq<(Point, Point)>) -> bool {
        forall|i: int|
            0 <= i < moves.len() ==> {
                &&& -1 <= (#[trigger] moves[i]).1.x - moves[i].0.x <= 1
                &&& -1 <= moves[i].1.y - moves[i].0.y <= 1
                &&& moves[i].0 != moves[i].1
            }
    }

    /// Lets every dude try a step in a direction picked by chance, one dude after the other
    /// in the order of `dudes`. A dude goes where he can walk. The crowd is what the steps of
    /// the dudes make of it, for some list of directions, one for each dude.
    pub fn step_dudes(&mut self)
        requires
            old(self).wf(),
        ensures
            final(self).wf(),
            exists|directions: Seq<Direction>|
                {
                    &&& directions.len() == old(self).dude_order().len()
                    &&& Self::all_steps(#[trigger] steps(old(self).dude_order(), directions))
                    &&& final(self).crowd() == old(self).after_moves(
                        old(self).crowd(),
                        steps(old(self).dude_order(), directions),
                    )
                },
            final(self).resident() == old(self).resident(),
            final(self).terrain() == old(self).terrain(),
            final(self).observer_position() == old(self).observer_position(),
            final(self).codec_used() == old(self).codec_used(),
            final(self).generator_used() == old(self).generator_used(),
            final(self).generated() == old(self).generated(),
    {
        let positions: Vec<Point> = self.dudes.keys();
        let mut actions: Vec<(WorldPosition, WorldPosition)> = Vec::new();
        let ghost mut directions: Seq<Direction> = Seq::empty();
        let mut i: usize = 0;
        assert(positions@.take(0) =~= Seq::<Point>::empty());
        while i < positions.len()
            invariant
                i <= positions@.len(),
                directions.len() == i,
                actions@ == steps(positions@.take(i as int), directions),
                Self::all_steps(actions@),
            decreases positions@.len() - i,
        {
            let pos: Point = positions[i];
            let dir: Direction = Direction::choose8();
            proof {
                let taken = positions@.take(i + 1);
                assert(taken.drop_last() =~= positions@.take(i as int));
                assert(taken.last() == pos);
                assert(directions.push(dir).drop_last() =~= directions);
                directions = directions.push(dir);
            }
            match pos.moved(dir) {
                Some(new_pos) => {
                    actions.push((pos, new_pos));
                },
                None => {},
            }
            i += 1;
        }
        assert(positions@.take(positions@.len() as int) =~= positions@);
        assert(positions@ == old(self).dude_order());
        assert(actions@ == steps(old(self).dude_order(), directions));
        self.move_dudes(&actions);
        assert(directions.len() == old(self).dude_order().len());
        assert(Self::all_steps(steps(old(self).dude_order(), directions)));
        assert(self.crowd() == old(self).after_moves(
            old(self).crowd(),
            steps(old(self).dude_order(), directions),
        ));
    }

    /// The position one step in a direction away from the observer, where the grid has one.
    pub open spec fn ahead(self, direction: Direction) -> Option<Point> {
        let x = self.observer_position().x + direction.offset().0;
        let y = self.observer_position().y + direction.offset().1;
        if i32::MIN <= x <= i32::MAX && i32::MIN <= y <= i32::MAX {
            Some(Point { x: x as i32, y: y as i32 })
        } else {
            None
        }
    }

    /// Lets the observer try a step in a direction. Where the observer can walk, he goes.
    /// Where a cell that cannot be walked on is in his way, he stays and the cell becomes
    /// floor. Where a dude is in his way, or nothing is loaded, or the grid ends, nothing
    /// happens.
    pub fn try_step(&mut self, direction: Direction)
        requires
            old(self).wf(),
        ensures
            final(self).wf(),
            final(self).crowd() == old(self).crowd(),
            final(self).terrain() == old(self).terrain(),
            final(self).codec_used() == old(self).codec_used(),
            final(self).generator_used() == old(self).generator_used(),
            final(self).generated() == old(self).generated(),
            final(self).resident().dom() == old(self).resident().dom(),
            match old(self).ahead(direction) {
                None => {
                    &&& final(self).observer_position() == old(self).observer_position()
                    &&& final(self).resident() == old(self).resident()
                },
                Some(to) => if old(self).walkable(to) {
                    &&& final(self).observer_position() == to
                    &&& final(self).resident() == old(self).resident()
                } else if old(self).cell_at(to) matches Some(cell) && cell.kind
                    != CellKind::Floor {
                    &&& final(self).observer_position() == old(self).observer_position()
                    &&& forall|p: Point|
                        p != ChunkIndex::containing(to).0 && old(self).resident().contains_key(p)
                            ==> #[trigger] final(self).resident()[p] == old(self).resident()[p]
                    &&& final(self).resident()[ChunkIndex::containing(to).0].cells()
                        == old(self).resident()[ChunkIndex::containing(to).0].cells().update(
                        cell_number(ChunkPosition::of_world(to)),
                        Cell { color: old(self).cell_at(to).unwrap().color, kind: CellKind::Floor },
                    )
                } else {
                    &&& final(self).observer_position() == old(self).observer_position()
                    &&& final(self).resident() == old(self).resident()
                },
            },
    {
        let new_pos: Point = match self.observer.moved(direction) {
            Some(p) => p,
            None => {
                return ;
            },
        };
        if self.can_walk(&new_pos) {
            self.observer = new_pos;
        } else {
            let blocked: bool = match self.cell(&new_pos) {
                Some(c) => !c.can_walk(),
                None => false,
            };
            if blocked {
                match self.cell_mut(&new_pos) {
                    Some(c) => {
                        c.kind = CellKind::Floor;
                    },
                    None => {},
                }
            }
        }
    }
}

} // verus!
