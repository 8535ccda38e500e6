use infinigen::cell::{Cell, CellKind, Color};
use infinigen::chunk::{Chunk, ChunkIndex, ChunkPosition, SerialChunk, CHUNK_WIDTH};
use infinigen::codec::{ChunkCodec, ChunkGenerator};
use infinigen::direction::Direction;
use infinigen::dude::Dude;
use infinigen::point::{Point, WorldPosition};
use infinigen::format::is_region_file;
use infinigen::region::{Region, RegionIndex, SerialError};
use infinigen::world::World;

/// A codec for the tests: one byte for each cell, then the dudes, each with its lengths.
struct PlainCodec;

fn kind_byte(kind: CellKind) -> u8 {
    match kind {
        CellKind::Wall => 1,
        CellKind::Floor => 2,
        CellKind::Tree => 3,
        CellKind::Nothing => 4,
    }
}

fn byte_kind(byte: u8) -> Option<CellKind> {
    match byte {
        1 => Some(CellKind::Wall),
        2 => Some(CellKind::Floor),
        3 => Some(CellKind::Tree),
        4 => Some(CellKind::Nothing),
        _ => None,
    }
}

fn failure(text: &str) -> Box<bincode::ErrorKind> {
    Box::new(bincode::ErrorKind::Custom(text.to_string()))
}

impl ChunkCodec for PlainCodec {
    fn encode(
        &self,
        chunk: &Chunk,
        dudes: &Vec<(WorldPosition, &Dude)>,
    ) -> Result<Vec<u8>, Box<bincode::ErrorKind>> {
        let mut bytes = Vec::new();
        for (_, cell) in chunk.iter() {
            if cell.kind == CellKind::Nothing {
                return Err(failure("a cell of nothing"));
            }
            bytes.push(kind_byte(cell.kind));
        }
        bytes.extend_from_slice(&(dudes.len() as u32).to_be_bytes());
        for (pos, dude) in dudes.iter() {
            bytes.extend_from_slice(&pos.x.to_be_bytes());
            bytes.extend_from_slice(&pos.y.to_be_bytes());
            bytes.extend_from_slice(&(dude.name.len() as u32).to_be_bytes());
            bytes.extend_from_slice(dude.name.as_bytes());
        }
        Ok(bytes)
    }

    fn decode(&self, bytes: &Vec<u8>) -> Result<SerialChunk, Box<bincode::ErrorKind>> {
        if bytes.len() < 260 {
            return Err(failure("too short"));
        }
        let mut cells = Vec::new();
        for byte in &bytes[..256] {
            match byte_kind(*byte) {
                Some(kind) => cells.push(Cell::new(kind, Color::White)),
                None => return Err(failure("no such cell")),
            }
        }
        let chunk = Chunk::from_cells(&cells).unwrap();
        let word = |at: usize| -> Option<[u8; 4]> {
            bytes.get(at..at + 4).map(|s| [s[0], s[1], s[2], s[3]])
        };
        let count = u32::from_be_bytes(word(256).unwrap());
        let mut at = 260;
        let mut dudes = Vec::new();
        for _ in 0..count {
            let x = i32::from_be_bytes(word(at).ok_or_else(|| failure("cut off"))?);
            let y = i32::from_be_bytes(word(at + 4).ok_or_else(|| failure("cut off"))?);
            let len = u32::from_be_bytes(word(at + 8).ok_or_else(|| failure("cut off"))?) as usize;
            let name = bytes.get(at + 12..at + 12 + len).ok_or_else(|| failure("cut off"))?;
            at += 12 + len;
            let pos = Point::new(x, y);
            dudes.push((
                pos,
                Dude {
                    pos,
                    appearance: 'D',
                    color: Color::White,
                    name: String::from_utf8(name.to_vec()).map_err(|_| failure("no name"))?,
                },
            ));
        }
        Ok(SerialChunk { chunk, dudes })
    }
}

/// A generator for the tests: chunks of one kind of cell, with a list of what was asked for.
struct Counting {
    kind: CellKind,
    asked: Vec<ChunkIndex>,
}

impl Counting {
    fn new(kind: CellKind) -> Self {
        Counting { kind, asked: Vec::new() }
    }
}

impl ChunkGenerator for Counting {
    fn generate(&mut self, index: &ChunkIndex) -> Chunk {
        self.asked.push(*index);
        Chunk::new(Cell::new(self.kind, Color::Green))
    }
}

fn diamond(cx: i32, cy: i32) -> Vec<ChunkIndex> {
    let mut all = Vec::new();
    for x in -2i32..=2 {
        for y in -2i32..=2 {
            if x.abs() + y.abs() <= 2 {
                all.push(ChunkIndex::new(cx + x, cy + y));
            }
        }
    }
    all
}

fn sorted(mut indices: Vec<ChunkIndex>) -> Vec<(i32, i32)> {
    let mut pairs: Vec<(i32, i32)> = indices.drain(..).map(|c| (c.0.x, c.0.y)).collect();
    pairs.sort();
    pairs
}

#[test]
fn windowed_residency() {
    let mut world = World::new_empty(PlainCodec, Counting::new(CellKind::Wall));
    world.update_chunks().unwrap();
    assert_eq!(world.chunk_count(), 13);
    assert_eq!(sorted(world.chunk_indices()), sorted(diamond(0, 0)));

    world.set_observer(Point::new(5 * CHUNK_WIDTH, 0));
    world.update_chunks().unwrap();
    assert_eq!(world.chunk_count(), 13);
    assert_eq!(sorted(world.chunk_indices()), sorted(diamond(5, 0)));

    // Every open region has something to write, and tracks loaded chunks only.
    let open = world.regions().region_indices();
    assert!(!open.is_empty());
    for index in open {
        let region = world.regions().get(&index).unwrap();
        assert!(!region.is_empty());
        for p in region.unsaved_indices() {
            assert!(world.chunk_loaded(&ChunkIndex(p)));
        }
    }
    // The chunks that were left behind are in the save.
    let files = world.into_files();
    let mut again = World::load(files, PlainCodec, Counting::new(CellKind::Floor)).unwrap();
    again.load_chunk(&ChunkIndex::new(-2, 0)).unwrap();
    again.load_chunk(&ChunkIndex::new(0, 2)).unwrap();
    assert_eq!(again.generator().asked.len(), 0);
    let cell = again.chunk(ChunkIndex::new(-2, 0)).unwrap().cell(ChunkPosition(Point::new(3, 3)));
    assert_eq!(cell.kind, CellKind::Wall);
}

#[test]
fn observer_field_moves_the_window() {
    let mut world = World::new_empty(PlainCodec, Counting::new(CellKind::Wall));
    world.observer = Point::new(-1, -1);
    world.update_chunks().unwrap();
    assert_eq!(sorted(world.chunk_indices()), sorted(diamond(-1, -1)));
}

#[test]
fn second_tick_changes_nothing() {
    let mut world = World::new_empty(PlainCodec, Counting::new(CellKind::Wall));
    world.update_chunks().unwrap();
    let asked = world.generator().asked.len();
    let before = sorted(world.chunk_indices());
    world.update_chunks().unwrap();
    assert_eq!(world.generator().asked.len(), asked);
    assert_eq!(sorted(world.chunk_indices()), before);
    // Nothing was written: no region has a record.
    for (_, bytes) in world.into_files() {
        assert_eq!(bytes.len(), 512);
        assert!(bytes.iter().all(|b| *b == 0));
    }
}

#[test]
fn generator_is_asked_once_for_each_chunk() {
    let mut world = World::new_empty(PlainCodec, Counting::new(CellKind::Wall));
    world.update_chunks().unwrap();
    world.set_observer(Point::new(3 * CHUNK_WIDTH, 0));
    world.update_chunks().unwrap();
    world.set_observer(Point::new(0, 0));
    world.update_chunks().unwrap();
    let asked = sorted(world.generator().asked.clone());
    let mut once = asked.clone();
    once.dedup();
    assert_eq!(asked, once);
    let mut union = diamond(0, 0);
    union.extend(diamond(3, 0));
    let mut union = sorted(union);
    union.dedup();
    assert_eq!(asked, union);
}

#[test]
fn save_and_load_round_trip() {
    let mut world = World::new_empty(PlainCodec, Counting::new(CellKind::Tree));
    world.update_chunks().unwrap();
    world.place_dude(Point::new(1, 1));
    world.place_dude(Point::new(2, 3));
    world.place_dude(Point::new(15, 0));
    world.place_dude(Point::new(16, 0));
    assert_eq!(world.dudes().len(), 4);
    assert_eq!(world.dudes_in_chunk(&ChunkIndex::new(0, 0)).len(), 3);
    assert_eq!(world.dudes_in_chunk(&ChunkIndex::new(1, 0)).len(), 1);
    world.cell_mut(&Point::new(17, 2)).unwrap().kind = CellKind::Floor;
    world.save().unwrap();
    assert_eq!(world.chunk_count(), 0);
    assert_eq!(world.dudes().len(), 0);

    let files = world.into_files();
    let mut again = World::load(files, PlainCodec, Counting::new(CellKind::Wall)).unwrap();
    again.load_chunk(&ChunkIndex::new(0, 0)).unwrap();
    again.load_chunk(&ChunkIndex::new(1, 0)).unwrap();
    assert_eq!(again.generator().asked.len(), 0);
    assert_eq!(again.chunk_count(), 2);
    let mut dudes: Vec<(i32, i32)> = again.dudes().iter().map(|p| (p.x, p.y)).collect();
    dudes.sort();
    assert_eq!(dudes, vec![(1, 1), (2, 3), (15, 0), (16, 0)]);
    assert_eq!(again.dude_at(&Point::new(2, 3)).unwrap().name, "Dood");
    assert_eq!(again.cell(&Point::new(17, 2)).unwrap().kind, CellKind::Floor);
    assert_eq!(again.cell(&Point::new(17, 3)).unwrap().kind, CellKind::Tree);
    assert_eq!(again.cell(&Point::new(0, 0)).unwrap().kind, CellKind::Tree);
    assert!(again.cell(&Point::new(0, 16)).is_none());
}

#[test]
fn load_and_unload_change_the_count_by_one() {
    let mut world = World::new_empty(PlainCodec, Counting::new(CellKind::Wall));
    let index = ChunkIndex::new(-1, -1);
    world.load_or_gen_chunk(&index).unwrap();
    assert!(world.chunk_loaded(&index));
    assert_eq!(world.chunk_count(), 1);
    match world.load_chunk(&index) {
        Err(SerialError::ChunkAlreadyLoaded(at)) => assert_eq!(at, index),
        other => panic!("unexpected {:?}", other),
    }
    world.unload_chunk(&index).unwrap();
    assert!(!world.chunk_loaded(&index));
    assert_eq!(world.chunk_count(), 0);
    match world.unload_chunk(&index) {
        Err(SerialError::NoChunkInWorld(at)) => assert_eq!(at, index),
        other => panic!("unexpected {:?}", other),
    }
    let files = world.into_files();
    assert_eq!(files.len(), 1);
    assert_eq!(files[0].0, RegionIndex::new(-1, -1));
    // The slot of the place (15, 15) is the last of the table.
    assert_eq!(&files[0].1[510..512], &[0, 1]);
    assert_eq!(files[0].1.len(), 512 + 4096);
}

#[test]
fn a_chunk_that_cannot_be_encoded_stays_loaded() {
    let mut world = World::new_empty(PlainCodec, Counting::new(CellKind::Nothing));
    let index = ChunkIndex::new(0, 0);
    world.load_chunk(&index).unwrap();
    world.place_dude(Point::new(3, 3));
    match world.unload_chunk(&index) {
        Err(SerialError::EncodingError(_)) => {}
        other => panic!("unexpected {:?}", other),
    }
    assert!(world.chunk_loaded(&index));
    assert_eq!(world.dudes().len(), 1);
    assert!(world.save().is_err());
    assert_eq!(world.chunk_count(), 1);
}

#[test]
fn a_new_chunk_of_floor_gets_sixteen_dudes() {
    let mut world = World::new_empty(PlainCodec, Counting::new(CellKind::Floor));
    world.set_observer(Point::new(5, 5));
    world.load_chunk(&ChunkIndex::new(0, 0)).unwrap();
    let mut dudes: Vec<(i32, i32)> = world.dudes().iter().map(|p| (p.x, p.y)).collect();
    dudes.sort();
    let mut expected = Vec::new();
    for x in 4..8 {
        for y in 4..8 {
            if (x, y) != (5, 5) {
                expected.push((x, y));
            }
        }
    }
    assert_eq!(dudes, expected);
    assert!(!world.can_walk(&Point::new(4, 4)));
    assert!(!world.can_walk(&Point::new(5, 5)));
    assert!(world.can_walk(&Point::new(3, 3)));
    assert!(!world.can_walk(&Point::new(-1, 0)));
}

#[test]
fn files_that_are_no_region_files_are_turned_down() {
    let short = vec![(RegionIndex::new(0, 0), vec![0u8; 100])];
    match World::load(short, PlainCodec, Counting::new(CellKind::Wall)) {
        Err(SerialError::IoError(_)) => {}
        _ => panic!("a short file was taken"),
    }
    let mut beyond = vec![0u8; 512];
    beyond[1] = 1;
    let files = vec![(RegionIndex::new(0, 0), beyond)];
    assert!(World::load(files, PlainCodec, Counting::new(CellKind::Wall)).is_err());
    let twice = vec![
        (RegionIndex::new(0, 0), vec![0u8; 512]),
        (RegionIndex::new(0, 0), vec![0u8; 512]),
    ];
    assert!(World::load(twice, PlainCodec, Counting::new(CellKind::Wall)).is_err());
    let fine = vec![
        (RegionIndex::new(0, 0), vec![0u8; 512]),
        (RegionIndex::new(0, 1), vec![0u8; 512 + 4096]),
    ];
    assert!(World::load(fine, PlainCodec, Counting::new(CellKind::Wall)).is_ok());
}

#[test]
fn test_saveload() {
    let mut world = World::new(Point::new(128, 128), PlainCodec, Counting::new(CellKind::Wall));
    let index = ChunkIndex::new(0, 0);

    world.place_dude(Point::new(0, 0));
    let count_before = world.dudes().len();

    world.save_and_unload_chunk(&index).unwrap();
    world.load_chunk(&index).unwrap();

    assert_eq!(count_before, world.dudes().len());
}

#[test]
fn a_new_world_is_as_large_as_asked_for() {
    let world = World::new(Point::new(128, 17), PlainCodec, Counting::new(CellKind::Wall));
    assert_eq!(world.chunk_count(), 16);
    let mut expected = Vec::new();
    for x in 0..8 {
        for y in 0..2 {
            expected.push((x, y));
        }
    }
    assert_eq!(sorted(world.chunk_indices()), expected);
    assert_eq!(world.cell(&Point::new(127, 31)).unwrap().kind, CellKind::Floor);
    assert!(world.cell(&Point::new(128, 0)).is_none());
    assert_eq!(world.generator().asked.len(), 0);
    assert_eq!(world.dudes().len(), 0);
    let one = World::new(Point::new(1, 16), PlainCodec, Counting::new(CellKind::Wall));
    assert_eq!(one.chunk_count(), 1);
}

#[test]
fn cells_of_a_rectangle() {
    let mut world = World::new_empty(PlainCodec, Counting::new(CellKind::Wall));
    world.load_chunk(&ChunkIndex::new(0, 0)).unwrap();
    world.load_chunk(&ChunkIndex::new(-1, 0)).unwrap();
    world.cell_mut(&Point::new(-1, 2)).unwrap().kind = CellKind::Tree;
    let cells = world.with_cells(Point::new(-2, 1), Point::new(4, 3));
    let mut found: Vec<(i32, i32, CellKind)> =
        cells.iter().map(|(p, c)| (p.x, p.y, c.kind)).collect();
    found.sort_by_key(|e| (e.1, e.0));
    let mut expected = Vec::new();
    for y in 1..4 {
        for x in -2..2 {
            let kind = if (x, y) == (-1, 2) { CellKind::Tree } else { CellKind::Wall };
            expected.push((x, y, kind));
        }
    }
    assert_eq!(found, expected);
    // The chunk above is not loaded: its cells are not shown.
    let cells = world.with_cells(Point::new(14, -2), Point::new(4, 4));
    let mut found: Vec<(i32, i32)> = cells.iter().map(|(p, _)| (p.x, p.y)).collect();
    found.sort();
    assert_eq!(found, vec![(14, 0), (14, 1), (15, 0), (15, 1)]);
    assert!(world.with_cells(Point::new(0, 0), Point::new(0, 5)).is_empty());
    assert_eq!(world.with_cells(Point::new(-16, 0), Point::new(32, 16)).len(), 512);
    assert_eq!(world.with_cells(Point::new(i32::MAX - 3, 0), Point::new(i32::MAX, 5)).len(), 0);
}

#[test]
fn dudes_go_where_they_can_walk() {
    let mut world = World::new(Point::new(16, 16), PlainCodec, Counting::new(CellKind::Wall));
    world.set_observer(Point::new(8, 8));
    world.place_dude(Point::new(1, 1));
    world.place_dude(Point::new(2, 1));
    world.cell_mut(&Point::new(5, 5)).unwrap().kind = CellKind::Wall;
    let moves = vec![
        (Point::new(1, 1), Point::new(2, 1)),   // taken
        (Point::new(2, 1), Point::new(3, 1)),   // free
        (Point::new(1, 1), Point::new(2, 1)),   // free now
        (Point::new(9, 9), Point::new(9, 10)),  // nobody there
        (Point::new(3, 1), Point::new(8, 8)),   // the observer
        (Point::new(3, 1), Point::new(5, 5)),   // a wall
        (Point::new(3, 1), Point::new(3, -1)),  // not loaded
    ];
    world.move_dudes(&moves);
    let mut dudes: Vec<(i32, i32)> = world.dudes().iter().map(|p| (p.x, p.y)).collect();
    dudes.sort();
    assert_eq!(dudes, vec![(2, 1), (3, 1)]);
    assert_eq!(world.dude_at(&Point::new(3, 1)).unwrap().pos, Point::new(3, 1));

    for _ in 0..20 {
        let before: Vec<WorldPosition> = world.dudes();
        world.step_dudes();
        let after = world.dudes();
        assert_eq!(before.len(), after.len());
        for p in after {
            assert!(world.cell(&p).unwrap().can_walk());
            assert!(p != Point::new(8, 8));
        }
    }
}

#[test]
fn a_record_that_cannot_be_decoded_is_not_loaded() {
    // A region file whose record for the chunk (1, 1) holds no chunk.
    let index = ChunkIndex::new(1, 1);
    let mut region = Region::load(None);
    region.receive_created_chunk(&index);
    region.write_encoded(vec![9u8; 300], &index).unwrap();
    let files = vec![(RegionIndex::new(0, 0), region.into_file())];

    let mut world = World::load(files, PlainCodec, Counting::new(CellKind::Wall)).unwrap();
    match world.load_chunk(&index) {
        Err(SerialError::EncodingError(_)) => {}
        other => panic!("unexpected {:?}", other),
    }
    assert!(!world.chunk_loaded(&index));
    assert_eq!(world.chunk_count(), 0);
    assert_eq!(world.generator().asked.len(), 0);
    match world.load_chunk_from_region(&ChunkIndex::new(2, 2)) {
        Err(SerialError::NoChunkInSavefile(place)) => assert_eq!(place.0, Point::new(2, 2)),
        other => panic!("unexpected {:?}", other),
    }
    // The window holds the chunk, so the tick fails, and the chunks loaded before it stay.
    match world.update_chunks() {
        Err(SerialError::EncodingError(_)) => {}
        other => panic!("unexpected {:?}", other),
    }
    assert!(world.chunk_count() < 13);
    assert!(!world.chunk_loaded(&index));
}

#[test]
fn files_are_handed_out_as_they_stand() {
    let mut world = World::new_empty(PlainCodec, Counting::new(CellKind::Wall));
    world.update_chunks().unwrap();
    world.set_observer(Point::new(0, 40 * CHUNK_WIDTH));
    world.update_chunks().unwrap();
    let mut copies = world.files();
    copies.sort_by_key(|(index, _)| (index.0.x, index.0.y));
    let names: Vec<(i32, i32)> = copies.iter().map(|(index, _)| (index.0.x, index.0.y)).collect();
    // The first window lay in four regions, the second lies in two more.
    assert_eq!(names, vec![(-1, -1), (-1, 0), (-1, 2), (0, -1), (0, 0), (0, 2)]);
    for (_, bytes) in &copies {
        assert!(is_region_file(bytes));
    }
    let records: usize = copies.iter().map(|(_, bytes)| (bytes.len() - 512) / 4096).sum();
    assert_eq!(records, 13);
    let mut given = world.into_files();
    given.sort_by_key(|(index, _)| (index.0.x, index.0.y));
    assert_eq!(given, copies);
}

#[test]
fn the_observer_steps_and_breaks_walls() {
    let mut world = World::new(Point::new(32, 16), PlainCodec, Counting::new(CellKind::Wall));
    world.set_observer(Point::new(3, 3));
    world.try_step(Direction::E);
    assert_eq!(world.observer, Point::new(4, 3));
    world.cell_mut(&Point::new(5, 3)).unwrap().kind = CellKind::Tree;
    world.try_step(Direction::E);
    assert_eq!(world.observer, Point::new(4, 3));
    assert_eq!(world.cell(&Point::new(5, 3)).unwrap().kind, CellKind::Floor);
    world.try_step(Direction::E);
    assert_eq!(world.observer, Point::new(5, 3));
    world.place_dude(Point::new(5, 4));
    world.try_step(Direction::S);
    assert_eq!(world.observer, Point::new(5, 3));
    assert!(world.dude_at(&Point::new(5, 4)).is_some());
    world.set_observer(Point::new(0, 0));
    world.try_step(Direction::N);
    assert_eq!(world.observer, Point::new(0, 0));
    assert_eq!(world.chunk_count(), 2);
}

#[test]
fn save_stops_at_the_first_chunk_that_cannot_be_written() {
    let mut world = World::new_empty(PlainCodec, Counting::new(CellKind::Wall));
    for x in 0..4 {
        world.load_chunk(&ChunkIndex::new(x, 0)).unwrap();
    }
    assert_eq!(sorted(world.chunk_indices()), vec![(0, 0), (1, 0), (2, 0), (3, 0)]);
    assert_eq!(world.chunk_indices()[2], ChunkIndex::new(2, 0));
    world.cell_mut(&Point::new(2 * CHUNK_WIDTH + 1, 1)).unwrap().kind = CellKind::Nothing;
    match world.save() {
        Err(SerialError::EncodingError(_)) => {}
        other => panic!("unexpected {:?}", other),
    }
    assert_eq!(world.chunk_indices(), vec![ChunkIndex::new(2, 0), ChunkIndex::new(3, 0)]);
    let files = world.files();
    assert_eq!(files.len(), 1);
    // Two records were written before the save stopped.
    assert_eq!(files[0].1.len(), 512 + 2 * 4096);
    world.cell_mut(&Point::new(2 * CHUNK_WIDTH + 1, 1)).unwrap().kind = CellKind::Tree;
    world.save().unwrap();
    assert_eq!(world.chunk_count(), 0);
    assert_eq!(world.files()[0].1.len(), 512 + 4 * 4096);
}

#[test]
fn cells_are_walked_chunk_after_chunk() {
    let mut world = World::new_empty(PlainCodec, Counting::new(CellKind::Wall));
    for (x, y) in [(0, 0), (-1, 0), (0, -1), (-1, -1)] {
        world.load_chunk(&ChunkIndex::new(x, y)).unwrap();
    }
    let cells = world.with_cells(Point::new(-1, -1), Point::new(3, 3));
    let found: Vec<(i32, i32)> = cells.iter().map(|(p, _)| (p.x, p.y)).collect();
    let expected =
        vec![(-1, -1), (0, -1), (1, -1), (-1, 0), (-1, 1), (0, 0), (1, 0), (0, 1), (1, 1)];
    assert_eq!(found, expected);
}

#[test]
fn the_observer_is_where_he_was_put() {
    let mut world = World::new_empty(PlainCodec, Counting::new(CellKind::Wall));
    assert_eq!(world.observer(), Point::new(0, 0));
    world.set_observer(Point::new(-7, 12));
    assert_eq!(world.observer(), Point::new(-7, 12));
    world.observer = Point::new(3, 3);
    assert_eq!(world.observer(), Point::new(3, 3));
}

#[test]
fn a_chunk_is_made_once_and_then_read_from_the_save() {
    let mut world = World::new_empty(PlainCodec, Counting::new(CellKind::Wall));
    let index = ChunkIndex::new(4, 4);
    match world.load_chunk_from_region(&index) {
        Err(SerialError::NoChunkInSavefile(_)) => {}
        other => panic!("unexpected {:?}", other),
    }
    world.generate_chunk(&index);
    assert_eq!(world.generator().asked, vec![index]);
    world.unload_chunk(&index).unwrap();
    world.load_chunk(&index).unwrap();
    world.unload_chunk(&index).unwrap();
    world.load_chunk_from_region(&index).unwrap();
    assert_eq!(world.generator().asked, vec![index]);
}
