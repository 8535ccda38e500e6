use flate2::write::ZlibEncoder;
use flate2::Compression;
use infinigen::cell::{Cell, CellKind, Color};
use infinigen::chunk::{Chunk, ChunkPosition};
use infinigen::codec::{
    compress_data, decompress_data, deserialize_u32, frame_stream, pad_byte_vec, serialize_u32,
};
use infinigen::dude::Dude;
use infinigen::format::is_region_file;
use infinigen::point::Point;
use infinigen::region::SerialError;
use std::io::Write;

#[test]
fn test_decompress() {
    let data = vec![1, 2, 3, 4];

    let mut e = ZlibEncoder::new(Vec::new(), Compression::default());
    e.write(data.as_slice()).unwrap();
    let buf = e.finish().map_err(SerialError::from).unwrap();

    println!("{:?}", buf);

    let compress = compress_data(&data).unwrap();
    println!("{:?}", compress);

    let decompress = decompress_data(&compress).unwrap();
    assert_eq!(decompress, data);
}

#[test]
fn compressed_data_has_its_length_in_front() {
    let data: Vec<u8> = (0..5000u32).map(|i| (i % 251) as u8).collect();
    let mut e = ZlibEncoder::new(Vec::new(), Compression::default());
    e.write_all(data.as_slice()).unwrap();
    let stream = e.finish().unwrap();

    let frame = compress_data(&data).unwrap();
    assert_ne!(frame, data);
    assert_eq!(frame.len(), stream.len() + 4);
    assert_eq!(deserialize_u32(&frame) as usize, stream.len());
    assert_eq!(&frame[4..], &stream[..]);

    // Padding behind the frame is left alone.
    let mut padded = frame.clone();
    pad_byte_vec(&mut padded, 4096);
    assert_eq!(padded.len() % 4096, 0);
    assert_eq!(decompress_data(&padded).unwrap(), data);
}

#[test]
fn broken_frames_are_turned_down() {
    for frame in [vec![], vec![0, 0, 1], vec![0, 0, 0, 9, 1, 2, 3], vec![0, 0, 0, 3, 1, 2, 3]] {
        match decompress_data(&frame) {
            Err(SerialError::IoError(_)) => {}
            other => panic!("unexpected {:?}", other),
        }
    }
}

#[test]
fn padding_goes_to_the_next_sector() {
    let mut bytes = vec![7u8; 3000];
    pad_byte_vec(&mut bytes, 4096);
    assert_eq!(bytes.len(), 4096);
    assert!(bytes[..3000].iter().all(|b| *b == 7));
    assert!(bytes[3000..].iter().all(|b| *b == 0));

    let mut whole = vec![1u8; 4096];
    pad_byte_vec(&mut whole, 4096);
    assert_eq!(whole.len(), 8192);

    let mut empty = Vec::new();
    pad_byte_vec(&mut empty, 4096);
    assert_eq!(empty, vec![0u8; 4096]);

    let mut small = vec![1u8, 2, 3];
    pad_byte_vec(&mut small, 2);
    assert_eq!(small, vec![1, 2, 3, 0]);
}

#[test]
fn lengths_are_written_with_the_heavy_byte_first() {
    assert_eq!(serialize_u32(0), [0, 0, 0, 0]);
    assert_eq!(serialize_u32(1), [0, 0, 0, 1]);
    assert_eq!(serialize_u32(0x0102_0304), [1, 2, 3, 4]);
    assert_eq!(serialize_u32(u32::MAX), [255, 255, 255, 255]);
    assert_eq!(deserialize_u32(&[1, 2, 3, 4]), 0x0102_0304);
    assert_eq!(deserialize_u32(&[0, 0, 1, 0, 9, 9]), 256);
    for val in [0u32, 1, 255, 256, 65535, 65536, 0x7fff_ffff, 0x8000_0000, u32::MAX] {
        assert_eq!(deserialize_u32(&serialize_u32(val)), val);
    }
    assert_eq!(frame_stream(vec![9, 8, 7]), vec![0, 0, 0, 3, 9, 8, 7]);
}

#[test]
fn colours_cells_and_dudes() {
    assert_eq!(Color::pick(0), Color::Red);
    assert_eq!(Color::pick(1), Color::Blue);
    assert_eq!(Color::pick(2), Color::Green);
    assert_eq!(Color::pick(3), Color::Cyan);
    assert_eq!(Color::pick(4), Color::Magenta);
    assert_eq!(Color::pick(5), Color::Yellow);
    assert_eq!(Color::pick(6), Color::White);
    assert_eq!(Color::pick(7), Color::Red);
    assert_eq!(Color::pick(255), Color::Cyan);
    let _ = Color::rand();

    assert_eq!(Cell::new(CellKind::Wall, Color::Red).to_char(), '#');
    assert_eq!(Cell::new(CellKind::Floor, Color::Red).to_char(), '.');
    assert_eq!(Cell::new(CellKind::Tree, Color::Red).to_char(), '%');
    assert_eq!(Cell::new(CellKind::Nothing, Color::Red).to_char(), ' ');
    assert!(Cell::new(CellKind::Floor, Color::Blue).can_walk());
    assert!(!Cell::new(CellKind::Wall, Color::Blue).can_walk());
    assert!(!Cell::new(CellKind::Tree, Color::Blue).can_walk());
    assert!(!Cell::new(CellKind::Nothing, Color::Blue).can_walk());

    let dude = Dude::new(Point::new(3, -4));
    assert_eq!(dude.pos(), Point::new(3, -4));
    assert_eq!(dude.appearance, 'D');
    assert_eq!(dude.name, "Dood");
}

#[test]
fn chunks_hold_their_cells_row_after_row() {
    let floor = Cell::new(CellKind::Floor, Color::White);
    let tree = Cell::new(CellKind::Tree, Color::Green);
    let mut chunk = Chunk::new(floor);
    *chunk.cell_mut(ChunkPosition(Point::new(3, 1))) = tree;
    assert_eq!(*chunk.cell(ChunkPosition(Point::new(3, 1))), tree);
    assert_eq!(*chunk.cell(ChunkPosition(Point::new(1, 3))), floor);
    let cells = chunk.iter();
    assert_eq!(cells.len(), 256);
    assert_eq!(cells[19], (ChunkPosition(Point::new(3, 1)), tree));
    assert_eq!(cells[255].0, ChunkPosition(Point::new(15, 15)));
    assert_eq!(cells[16].0, ChunkPosition(Point::new(0, 1)));

    let mut list = vec![floor; 256];
    list[255] = tree;
    let made = Chunk::from_cells(&list).unwrap();
    assert_eq!(*made.cell(ChunkPosition(Point::new(15, 15))), tree);
    assert!(Chunk::from_cells(&vec![floor; 255]).is_none());
    assert!(Chunk::from_cells(&vec![floor; 257]).is_none());
}

#[test]
fn region_files_are_told_from_other_bytes() {
    assert!(is_region_file(&vec![0u8; 512]));
    assert!(!is_region_file(&vec![0u8; 511]));
    assert!(!is_region_file(&vec![0u8; 513]));
    assert!(is_region_file(&vec![0u8; 512 + 8192]));
    let mut one = vec![0u8; 512 + 8192];
    one[0] = 0;
    one[1] = 2;
    assert!(is_region_file(&one));
    one[2] = 1;
    one[3] = 1;
    assert!(!is_region_file(&one));
    one[2] = 2;
    assert!(!is_region_file(&one));
    one[1] = 1;
    one[2] = 1;
    assert!(is_region_file(&one));
    one[511] = 1;
    one[510] = 1;
    assert!(!is_region_file(&one));
}
