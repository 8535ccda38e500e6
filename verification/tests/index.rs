use infinigen::chunk::{Chunk, ChunkIndex, ChunkPosition, CHUNK_WIDTH};
use infinigen::direction::Direction;
use infinigen::filename::{get_filename, parse_filename};
use infinigen::point::{div_floor, mod_floor, Index, Point, WorldPosition};
use infinigen::region::{
    get_chunk_offset, get_region_index, normalize_chunk_index, Region, RegionIndex,
    RegionLocalIndex, LOOKUP_TABLE_SIZE, REGION_WIDTH,
};
use infinigen::region_manager::RegionManager;

#[test]
fn test_region_index() {
    assert_eq!(RegionManager::get_region_index(&ChunkIndex::new(0, 0)), RegionIndex::new(0, 0));
    assert_eq!(RegionManager::get_region_index(&ChunkIndex::new(0, 8)), RegionIndex::new(0, 0));
    assert_eq!(RegionManager::get_region_index(&ChunkIndex::new(0, 17)), RegionIndex::new(0, 1));
    assert_eq!(RegionManager::get_region_index(&ChunkIndex::new(0, 16)), RegionIndex::new(0, 1));
    assert_eq!(RegionManager::get_region_index(&ChunkIndex::new(0, 15)), RegionIndex::new(0, 0));
    assert_eq!(RegionManager::get_region_index(&ChunkIndex::new(0, -1)), RegionIndex::new(0, -1));
}

#[test]
fn floored_division_mapping() {
    assert_eq!(get_region_index(&ChunkIndex::new(0, 0)), RegionIndex::new(0, 0));
    assert_eq!(get_region_index(&ChunkIndex::new(0, 15)), RegionIndex::new(0, 0));
    assert_eq!(get_region_index(&ChunkIndex::new(0, 16)), RegionIndex::new(0, 1));
    assert_eq!(get_region_index(&ChunkIndex::new(0, -1)), RegionIndex::new(0, -1));
    assert_eq!(get_region_index(&ChunkIndex::new(-1, -17)), RegionIndex::new(-1, -2));
    assert_eq!(get_region_index(&ChunkIndex::new(-1, -1)), RegionIndex::new(-1, -1));
    assert_eq!(get_region_index(&ChunkIndex::new(-16, -32)), RegionIndex::new(-1, -2));
    assert_eq!(
        normalize_chunk_index(&ChunkIndex::new(-1, -1)),
        RegionLocalIndex(Point::new(REGION_WIDTH - 1, REGION_WIDTH - 1))
    );
    assert_eq!(
        normalize_chunk_index(&ChunkIndex::new(-16, 33)),
        RegionLocalIndex(Point::new(0, 1))
    );
}

#[test]
fn division_rounds_down() {
    assert_eq!(div_floor(-1, 16), -1);
    assert_eq!(mod_floor(-1, 16), 15);
    assert_eq!(div_floor(-16, 16), -1);
    assert_eq!(mod_floor(-16, 16), 0);
    assert_eq!(div_floor(-17, 16), -2);
    assert_eq!(mod_floor(-17, 16), 15);
    assert_eq!(div_floor(31, 16), 1);
    assert_eq!(mod_floor(31, 16), 15);
    assert_eq!(div_floor(i32::MIN, 16), -134217728);
    assert_eq!(mod_floor(i32::MIN, 16), 0);
    assert_eq!(div_floor(i32::MAX, 16), 134217727);
    assert_eq!(mod_floor(i32::MAX, 16), 15);
    assert_eq!(div_floor(i32::MIN, 1), i32::MIN);
    assert_eq!(div_floor(-7, 3), -3);
    assert_eq!(mod_floor(-7, 3), 2);
}

#[test]
fn region_and_place_give_the_chunk_back() {
    for x in [-40, -33, -32, -17, -16, -1, 0, 1, 15, 16, 31, 32, 1000, i32::MIN, i32::MAX] {
        for y in [-16, -1, 0, 7, 16, i32::MAX, i32::MIN] {
            let index = ChunkIndex::new(x, y);
            let region = Region::get_region_index(&index);
            let place = Region::normalize_chunk_index(&index);
            assert!(0 <= place.0.x && place.0.x < REGION_WIDTH);
            assert!(0 <= place.0.y && place.0.y < REGION_WIDTH);
            assert_eq!(region.0.x as i64 * REGION_WIDTH as i64 + place.0.x as i64, x as i64);
            assert_eq!(region.0.y as i64 * REGION_WIDTH as i64 + place.0.y as i64, y as i64);
        }
    }
}

#[test]
fn every_slot_lies_in_the_table() {
    assert_eq!(Region::lookup_table_size(), 512);
    assert_eq!(get_chunk_offset(&RegionLocalIndex(Point::new(0, 0))), 0);
    assert_eq!(get_chunk_offset(&RegionLocalIndex(Point::new(2, 2))), 68);
    assert_eq!(get_chunk_offset(&RegionLocalIndex(Point::new(15, 15))), 510);
    assert_eq!(Region::get_chunk_offset(&RegionLocalIndex(Point::new(1, 0))), 2);
    assert_eq!(Region::get_chunk_offset(&RegionLocalIndex(Point::new(0, 1))), 32);
    for x in -20..40 {
        for y in [-17, -1, 0, 3, 15, 16, 100] {
            let offset = get_chunk_offset(&RegionLocalIndex(Point::new(x, y)));
            assert!(offset + 2 <= LOOKUP_TABLE_SIZE);
        }
    }
    assert_eq!(get_chunk_offset(&RegionLocalIndex(Point::new(-1, 16))), 30);
}

#[test]
fn chunk_of_a_world_position() {
    assert_eq!(ChunkIndex::from_world_pos(Point::new(0, 0)), ChunkIndex::new(0, 0));
    assert_eq!(ChunkIndex::from_world_pos(Point::new(15, 16)), ChunkIndex::new(0, 1));
    assert_eq!(ChunkIndex::from_world_pos(Point::new(-1, -16)), ChunkIndex::new(-1, -1));
    assert_eq!(ChunkIndex::from_world_pos(Point::new(-17, 31)), ChunkIndex::new(-2, 1));
    assert_eq!(
        ChunkIndex::from_world_pos(Point::new(i32::MIN, i32::MAX)),
        ChunkIndex::new(-134217728, 134217727)
    );
    assert_eq!(ChunkPosition::from_world(&Point::new(-1, 17)), ChunkPosition(Point::new(15, 1)));
    assert_eq!(ChunkPosition::from_world(&Point::new(16, -16)), ChunkPosition(Point::new(0, 0)));
    assert_eq!(ChunkPosition::from(Point::new(3, 4)), ChunkPosition(Point::new(3, 4)));
    assert_eq!(WorldPosition::from_chunk_index(ChunkIndex::new(-2, 3)), Point::new(-32, 48));
    assert_eq!(CHUNK_WIDTH, 16);
    let index = ChunkIndex::new(-1, 2);
    let pos = ChunkPosition(Point::new(15, 0));
    assert_eq!(Chunk::world_position_at(&index, &pos), Point::new(-1, 32));
    assert_eq!(Chunk::checked_world_position(&index, &pos), Some(Point::new(-1, 32)));
    let edge = ChunkIndex::new(134217728, 0);
    assert_eq!(Chunk::checked_world_position(&edge, &pos), None);
}

#[test]
fn region_file_names() {
    assert_eq!(get_filename(&RegionIndex::new(0, 0)), "r.0.0.sr");
    assert_eq!(get_filename(&RegionIndex::new(0, -1)), "r.0.-1.sr");
    assert_eq!(get_filename(&RegionIndex::new(-12, 340)), "r.-12.340.sr");
    assert_eq!(get_filename(&RegionIndex::new(10, 9)), "r.10.9.sr");
    assert_eq!(
        get_filename(&RegionIndex::new(i32::MIN, i32::MAX)),
        "r.-2147483648.2147483647.sr"
    );
    for x in [-1001, -100, -99, -10, -9, 0, 9, 10, 99, 100, 101, 1000, 65536] {
        assert_eq!(get_filename(&RegionIndex::new(x, x)), format!("r.{}.{}.sr", x, x));
    }
}

#[test]
fn steps_in_eight_directions() {
    let from = Point::new(3, 3);
    assert_eq!(from.moved(Direction::N), Some(Point::new(3, 2)));
    assert_eq!(from.moved(Direction::NE), Some(Point::new(4, 2)));
    assert_eq!(from.moved(Direction::E), Some(Point::new(4, 3)));
    assert_eq!(from.moved(Direction::SE), Some(Point::new(4, 4)));
    assert_eq!(from.moved(Direction::S), Some(Point::new(3, 4)));
    assert_eq!(from.moved(Direction::SW), Some(Point::new(2, 4)));
    assert_eq!(from.moved(Direction::W), Some(Point::new(2, 3)));
    assert_eq!(from.moved(Direction::NW), Some(Point::new(2, 2)));
    assert_eq!(Point::new(i32::MAX, 0).moved(Direction::E), None);
    assert_eq!(Point::new(0, i32::MIN).moved(Direction::NW), None);
    assert_eq!(Point::new(i32::MAX, 0).moved(Direction::W), Some(Point::new(i32::MAX - 1, 0)));
    assert_eq!(Direction::pick(0), Direction::N);
    assert_eq!(Direction::pick(3), Direction::SE);
    assert_eq!(Direction::pick(7), Direction::NW);
    assert_eq!(Direction::pick(8), Direction::N);
    assert_eq!(Direction::pick(255), Direction::NW);
    let _ = Direction::choose8();
}

#[test]
fn indices_have_two_coordinates() {
    assert_eq!(ChunkIndex::new(3, -4).x(), 3);
    assert_eq!(ChunkIndex::new(3, -4).y(), -4);
    assert_eq!(RegionIndex::new(-1, 7).x(), -1);
    assert_eq!(RegionIndex::new(-1, 7).y(), 7);
    assert_eq!(RegionLocalIndex(Point::new(5, 6)).x(), 5);
    assert_eq!(RegionLocalIndex(Point::new(5, 6)).y(), 6);
    assert_eq!(Point::new(8, 9).y(), 9);
    assert_eq!(RegionLocalIndex::from(ChunkIndex::new(-3, 40)), RegionLocalIndex(Point::new(-3, 40)));
}

#[test]
fn names_of_region_files_are_read_back() {
    for x in [i32::MIN, -2147483647, -1001, -100, -10, -9, -1, 0, 1, 9, 10, 99, 100, 65536, i32::MAX] {
        for y in [i32::MIN, -12, -1, 0, 7, 10, 1234567890, i32::MAX] {
            let index = RegionIndex::new(x, y);
            assert_eq!(parse_filename(&get_filename(&index)), Some(index));
        }
    }
    assert_eq!(parse_filename("r.0.-1.sr"), Some(RegionIndex::new(0, -1)));
    assert_eq!(parse_filename("r.-12.340.sr"), Some(RegionIndex::new(-12, 340)));
    for name in [
        "",
        "r",
        "r.",
        "r.1",
        "r.1.",
        "r.1.2",
        "r.1.2.",
        "r.1.2.s",
        "r.1.2.sr ",
        " r.1.2.sr",
        "r.1.2.sr.bak",
        "x.1.2.sr",
        "r,1.2.sr",
        "r.1,2.sr",
        "r.1.2.rs",
        "r.01.2.sr",
        "r.1.02.sr",
        "r.-0.2.sr",
        "r.1.-0.sr",
        "r.+1.2.sr",
        "r.--1.2.sr",
        "r.-.2.sr",
        "r..2.sr",
        "r.1..sr",
        "r.1.2.3.sr",
        "r.2147483648.0.sr",
        "r.0.-2147483649.sr",
        "r.99999999999999999999999.0.sr",
        "r.1a.2.sr",
        "r.\u{0661}.2.sr",
        "R.1.2.sr",
    ] {
        assert_eq!(parse_filename(name), None, "{}", name);
    }
}
