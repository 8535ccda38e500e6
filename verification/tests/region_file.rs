use infinigen::chunk::ChunkIndex;
use infinigen::format::is_region_file;
use infinigen::region::{Region, RegionIndex, RegionLocalIndex, SerialError};
use infinigen::point::Point;

fn payload(len: usize, fill: u8) -> Vec<u8> {
    let mut bytes = Vec::new();
    for i in 0..len {
        bytes.push(fill.wrapping_add((i % 7) as u8));
    }
    bytes
}

#[test]
fn region_test_region_index() {
    assert_eq!(Region::get_region_index(&ChunkIndex::new(0, 0)), RegionIndex::new(0, 0));
    assert_eq!(Region::get_region_index(&ChunkIndex::new(0, 8)), RegionIndex::new(0, 0));
    assert_eq!(Region::get_region_index(&ChunkIndex::new(0, 17)), RegionIndex::new(0, 1));
    assert_eq!(Region::get_region_index(&ChunkIndex::new(0, 16)), RegionIndex::new(0, 1));
    assert_eq!(Region::get_region_index(&ChunkIndex::new(0, 15)), RegionIndex::new(0, 0));
    assert_eq!(Region::get_region_index(&ChunkIndex::new(0, -1)), RegionIndex::new(0, -1));
}

#[test]
fn append_then_update_in_place() {
    let index = ChunkIndex::new(2, 2);
    let mut region = Region::load(None);
    assert_eq!(region.file_len(), 512);
    region.receive_created_chunk(&index);
    let first = payload(3000, 1);
    region.write_encoded(first.clone(), &index).unwrap();
    assert_eq!(region.file_len(), 4608);
    assert_eq!(region.read_bytes(68, 2), vec![0, 1]);
    assert!(region.is_empty());
    let record = region.read_encoded(&index).unwrap();
    assert_eq!(record.len(), 4096);
    assert_eq!(&record[..3000], &first[..]);
    assert!(record[3000..].iter().all(|b| *b == 0));

    region.mark_as_unsaved(&index);
    let second = payload(4000, 9);
    region.write_encoded(second.clone(), &index).unwrap();
    assert_eq!(region.file_len(), 4608);
    assert_eq!(region.read_bytes(68, 2), vec![0, 1]);
    let record = region.read_encoded(&index).unwrap();
    assert_eq!(&record[..4000], &second[..]);
    assert!(record[4000..].iter().all(|b| *b == 0));

    region.mark_as_unsaved(&index);
    let before = region.read_bytes(0, 4608);
    match region.write_encoded(payload(5000, 3), &index) {
        Err(SerialError::RecordGrewPastAllocation) => {}
        other => panic!("unexpected {:?}", other),
    }
    assert_eq!(region.read_bytes(0, 4608), before);
    assert_eq!(region.file_len(), 4608);
    assert!(region.chunk_unsaved(&index));
    assert_eq!(RegionLocalIndex(Point::new(2, 2)), Region::normalize_chunk_index(&index));
}

#[test]
fn a_region_takes_no_more_than_it_can_say() {
    let mut region = Region::load(None);
    // 255 sectors in one record: the next record would start at sector 255.
    let big = ChunkIndex::new(0, 0);
    region.receive_created_chunk(&big);
    region.write_encoded(vec![1u8; 254 * 4096 + 1], &big).unwrap();
    assert_eq!(region.read_bytes(0, 2), vec![0, 255]);
    assert_eq!(region.file_len(), 512 + 255 * 4096);

    let next = ChunkIndex::new(1, 0);
    region.receive_created_chunk(&next);
    region.write_encoded(vec![2u8; 10], &next).unwrap();
    assert_eq!(region.read_bytes(2, 2), vec![255, 1]);

    let last = ChunkIndex::new(2, 0);
    region.receive_created_chunk(&last);
    let len = region.file_len();
    match region.write_encoded(vec![3u8; 10], &last) {
        Err(SerialError::RegionFull) => {}
        other => panic!("unexpected {:?}", other),
    }
    assert_eq!(region.file_len(), len);
    assert!(region.chunk_unsaved(&last));
    assert_eq!(region.read_bytes(4, 2), vec![0, 0]);

    // A payload of 255 sectors and more is turned down before it is padded.
    let mut fresh = Region::load(None);
    fresh.receive_created_chunk(&big);
    match fresh.write_encoded(vec![0u8; 255 * 4096], &big) {
        Err(SerialError::RegionFull) => {}
        other => panic!("unexpected {:?}", other),
    }
    assert_eq!(fresh.file_len(), 512);
}

#[test]
fn an_empty_slot_has_no_chunk() {
    let region = Region::load(None);
    let index = ChunkIndex::new(-1, 17);
    match region.read_encoded(&index) {
        Err(SerialError::NoChunkInSavefile(place)) => {
            assert_eq!(place, RegionLocalIndex(Point::new(15, 1)))
        }
        other => panic!("unexpected {:?}", other),
    }
    assert_eq!(region.read_chunk_offset(&RegionLocalIndex(Point::new(15, 1))), (512, None));
}

#[test]
fn records_do_not_touch_each_other() {
    let mut region = Region::load(None);
    let a = ChunkIndex::new(0, 0);
    let b = ChunkIndex::new(17, 16);
    let c = ChunkIndex::new(5, 5);
    for index in [a, b, c] {
        region.receive_created_chunk(&index);
    }
    region.write_encoded(payload(5000, 1), &a).unwrap();
    region.write_encoded(payload(100, 2), &b).unwrap();
    region.write_encoded(payload(4096, 3), &c).unwrap();
    assert_eq!(region.file_len(), 512 + 5 * 4096);
    assert_eq!(region.read_chunk_offset(&RegionLocalIndex(Point::new(1, 0))), (512 + 8192, Some(4096)));
    let b_before = region.read_encoded(&b).unwrap();
    let c_before = region.read_encoded(&c).unwrap();
    region.mark_as_unsaved(&a);
    region.write_encoded(payload(10, 9), &a).unwrap();
    let a_after = region.read_encoded(&a).unwrap();
    assert_eq!(a_after.len(), 8192);
    assert_eq!(&a_after[..10], &payload(10, 9)[..]);
    assert!(a_after[10..4096].iter().all(|byte| *byte == 0));
    // Behind the new record's sector the longer record's tail is still there.
    assert_eq!(&a_after[4096..5000], &payload(5000, 1)[4096..]);
    assert_eq!(region.read_encoded(&b).unwrap(), b_before);
    assert_eq!(region.read_encoded(&c).unwrap(), c_before);
    let bytes = region.into_file();
    assert!(is_region_file(&bytes));
    let again = Region::load(Some(bytes));
    assert_eq!(again.read_encoded(&c).unwrap(), c_before);
    assert!(again.is_empty());
}
