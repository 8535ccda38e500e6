use infinigen::bincode_codec::BincodeCodec;
use infinigen::cell::{Cell, CellKind, Color};
use infinigen::chunk::{Chunk, ChunkIndex, ChunkPosition};
use infinigen::codec::{pad_byte_vec, ChunkCodec, ChunkGenerator};
use infinigen::dude::Dude;
use infinigen::point::Point;
use infinigen::world::World;

struct Trees;

impl ChunkGenerator for Trees {
    fn generate(&mut self, index: &ChunkIndex) -> Chunk {
        let color = Color::pick((index.0.x & 0xff) as u8);
        Chunk::new(Cell::new(CellKind::Tree, color))
    }
}

fn sample() -> (Chunk, Vec<Dude>) {
    let mut chunk = Chunk::new(Cell::new(CellKind::Floor, Color::White));
    *chunk.cell_mut(ChunkPosition(Point::new(1, 0))) = Cell::new(CellKind::Tree, Color::Green);
    *chunk.cell_mut(ChunkPosition(Point::new(15, 15))) = Cell::new(CellKind::Nothing, Color::Red);
    let dudes = vec![
        Dude::from_parts(Point::new(3, 4), 'D', Color::Cyan, "Dood".to_string()),
        Dude::from_parts(Point::new(-1, 40), '\u{e9}', Color::Yellow, "Ren\u{e9}e".to_string()),
    ];
    (chunk, dudes)
}

#[test]
fn chunks_are_written_as_bincode_writes_their_parts() {
    let (chunk, dudes) = sample();
    let borrowed: Vec<(Point, &Dude)> =
        vec![(Point::new(3, 4), &dudes[0]), (Point::new(7, 7), &dudes[1])];
    let bytes = BincodeCodec.encode(&chunk, &borrowed).unwrap();

    let mut cells: Vec<(u32, u32)> = vec![(6, 1); 256];
    cells[1] = (2, 2);
    cells[255] = (0, 3);
    let plain: Vec<((i32, i32), ((i32, i32), char, u32, String))> = vec![
        ((3, 4), ((3, 4), 'D', 3, "Dood".to_string())),
        ((7, 7), ((-1, 40), '\u{e9}', 5, "Ren\u{e9}e".to_string())),
    ];
    assert_eq!(bytes, bincode::serialize(&(cells, plain)).unwrap());
    // The length of the list of cells, the first cell, the second cell.
    assert_eq!(&bytes[..8], &[0, 1, 0, 0, 0, 0, 0, 0]);
    assert_eq!(&bytes[8..16], &[6, 0, 0, 0, 1, 0, 0, 0]);
    assert_eq!(&bytes[16..24], &[2, 0, 0, 0, 2, 0, 0, 0]);
    assert_eq!(bytes.len(), 8 + 256 * 8 + 8 + (8 + 8 + 1 + 4 + 8 + 4) + (8 + 8 + 2 + 4 + 8 + 6));
}

#[test]
fn chunks_are_read_back_from_padded_records() {
    let (chunk, dudes) = sample();
    let borrowed: Vec<(Point, &Dude)> =
        vec![(Point::new(3, 4), &dudes[0]), (Point::new(7, 7), &dudes[1])];
    let mut bytes = BincodeCodec.encode(&chunk, &borrowed).unwrap();
    pad_byte_vec(&mut bytes, 4096);
    bytes.extend_from_slice(&[7u8; 4096]);
    let found = BincodeCodec.decode(&bytes).unwrap();
    for (pos, cell) in chunk.iter() {
        assert_eq!(*found.chunk.cell(pos), cell);
    }
    assert_eq!(found.dudes.len(), 2);
    assert_eq!(found.dudes[0].0, Point::new(3, 4));
    assert_eq!(found.dudes[1].0, Point::new(7, 7));
    assert_eq!(found.dudes[1].1.pos, Point::new(-1, 40));
    assert_eq!(found.dudes[1].1.appearance, '\u{e9}');
    assert_eq!(found.dudes[1].1.color, Color::Yellow);
    assert_eq!(found.dudes[1].1.name, "Ren\u{e9}e");
    assert_eq!(found.dudes[0].1.name, "Dood");
}

#[test]
fn bytes_that_hold_no_chunk_are_turned_down() {
    assert!(BincodeCodec.decode(&vec![1, 2, 3]).is_err());
    assert!(BincodeCodec.decode(&vec![0u8; 4096]).is_err());

    let no_dudes: Vec<((i32, i32), ((i32, i32), char, u32, String))> = Vec::new();
    let few = bincode::serialize(&(vec![(0u32, 0u32); 255], no_dudes.clone())).unwrap();
    assert!(BincodeCodec.decode(&few).is_err());
    let many = bincode::serialize(&(vec![(0u32, 0u32); 257], no_dudes.clone())).unwrap();
    assert!(BincodeCodec.decode(&many).is_err());
    let fine = bincode::serialize(&(vec![(6u32, 3u32); 256], no_dudes.clone())).unwrap();
    assert!(BincodeCodec.decode(&fine).is_ok());

    let mut cells = vec![(0u32, 0u32); 256];
    cells[100] = (7, 0);
    let colour = bincode::serialize(&(cells.clone(), no_dudes.clone())).unwrap();
    assert!(BincodeCodec.decode(&colour).is_err());
    cells[100] = (0, 4);
    let kind = bincode::serialize(&(cells, no_dudes)).unwrap();
    assert!(BincodeCodec.decode(&kind).is_err());

    let dude = vec![((0, 0), ((0, 0), 'D', 9u32, "Dood".to_string()))];
    let bad = bincode::serialize(&(vec![(0u32, 0u32); 256], dude)).unwrap();
    assert!(BincodeCodec.decode(&bad).is_err());
}

#[test]
fn a_world_is_saved_and_loaded_with_bincode() {
    let mut world = World::new_empty(BincodeCodec, Trees);
    world.set_observer(Point::new(40, -40));
    world.update_chunks().unwrap();
    world.place_dude(Point::new(41, -39));
    world.place_dude(Point::new(33, -47));
    world.cell_mut(&Point::new(40, -41)).unwrap().kind = CellKind::Wall;
    let colour = world.dude_at(&Point::new(41, -39)).unwrap().color;
    world.save().unwrap();
    assert_eq!(world.chunk_count(), 0);

    let mut again = World::load(world.into_files(), BincodeCodec, Trees).unwrap();
    again.set_observer(Point::new(40, -40));
    again.update_chunks().unwrap();
    assert_eq!(again.chunk_count(), 13);
    assert_eq!(again.dudes().len(), 2);
    assert_eq!(again.dude_at(&Point::new(41, -39)).unwrap().color, colour);
    assert_eq!(again.dude_at(&Point::new(33, -47)).unwrap().name, "Dood");
    assert_eq!(again.cell(&Point::new(40, -41)).unwrap().kind, CellKind::Wall);
    assert_eq!(again.cell(&Point::new(40, -40)).unwrap().kind, CellKind::Tree);
    assert_eq!(again.cell(&Point::new(40, -40)).unwrap().color, Color::Green);
}
