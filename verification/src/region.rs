//! Regions: the indices that lead from a chunk to its record, the errors of saving and
//! loading, and the reading and writing of one region file.

use vstd::prelude::*;
use crate::chunk::{Chunk, ChunkIndex, SerialChunk};
use crate::codec::{ChunkCodec, dudes_of, lemma_padded_len, pad_byte_vec, padded};
use crate::dude::Dude;
use crate::format::{
    after_write, appended, empty_region_file, entry_count, entry_sector, has_record,
    lemma_append_record, lemma_overwrite_record, overwritten, record, record_len, record_start,
    region_file_wf, sectors_in, stored, with_entry, write_fault,
};
use crate::point::{
    div_floor, floor_div, floor_mod, Index, lemma_floor_div_mod, mod_floor, Point, WorldPosition,
};
use crate::point_set::PointSet;

verus! {

/// The number of bytes that chunk records are aligned to in a region file.
pub const SECTOR_SIZE: usize = 4096;

/// The number of chunks per row inside a region.
pub const REGION_WIDTH: i32 = 16;

/// The total number of chunks per region.
pub const REGION_SIZE: i32 = 256;

/// The number of bytes that the lookup table takes at the start of a region file: two for each
/// chunk of the region.
pub const LOOKUP_TABLE_SIZE: u64 = 512;

/// What can go wrong when chunks are saved and loaded.
#[derive(Debug)]
pub enum SerialError {
    /// A chunk that is not loaded was to be unloaded.
    NoChunkInWorld(ChunkIndex),
    /// The region file holds no record for the chunk at this place.
    NoChunkInSavefile(RegionLocalIndex),
    /// A chunk that is loaded already was to be loaded.
    ChunkAlreadyLoaded(ChunkIndex),
    /// The padded payload is larger than the sectors reserved for the chunk.
    RecordGrewPastAllocation,
    /// The record's sector offset or its sector count does not fit in a byte.
    RegionFull,
    /// Reading or writing bytes failed.
    IoError(std::io::Error),
    /// A payload could not be turned into bytes, or bytes into a payload.
    EncodingError(bincode::ErrorKind),
}

pub type SerialResult<T> = Result<T, SerialError>;

impl From<std::io::Error> for SerialError {
    fn from(e: std::io::Error) -> (error: SerialError) {
        SerialError::IoError(e)
    }
}

impl vstd::std_specs::convert::FromSpecImpl<std::io::Error> for SerialError {
    open spec fn obeys_from_spec() -> bool {
        true
    }

    open spec fn from_spec(e: std::io::Error) -> SerialError {
        SerialError::IoError(e)
    }
}

impl From<Box<bincode::ErrorKind>> for SerialError {
    fn from(e: Box<bincode::ErrorKind>) -> (error: SerialError) {
        SerialError::EncodingError(*e)
    }
}

impl vstd::std_specs::convert::FromSpecImpl<Box<bincode::ErrorKind>> for SerialError {
    open spec fn obeys_from_spec() -> bool {
        true
    }

    open spec fn from_spec(e: Box<bincode::ErrorKind>) -> SerialError {
        SerialError::EncodingError(*e)
    }
}

/// `std::io::Error`, the error of reading and writing, as a value that is carried through.
/// Nothing is known of what it holds.
#[verifier::external_type_specification]
#[verifier::external_body]
pub struct ExIoError(std::io::Error);

/// `bincode::ErrorKind`, the error of a codec, as a value that is carried through. Nothing is
/// known of what it holds.
#[verifier::external_type_specification]
#[verifier::external_body]
pub struct ExEncodingErrorKind(bincode::ErrorKind);

/// Calls `std::io::Error::from` on `std::io::ErrorKind::InvalidData`, which makes the error
/// that stands for data that is not what it should be. Nothing is claimed of the error.
#[verifier::external_body]
pub(crate) fn invalid_data() -> std::io::Error {
    std::io::Error::from(std::io::ErrorKind::InvalidData)
}

/// The index of a chunk inside its region's coordinate space.
#[derive(Copy, Clone, Debug, Hash, PartialEq, Eq, Structural)]
pub struct RegionLocalIndex(pub Point);

impl From<ChunkIndex> for RegionLocalIndex {
    /// Takes the coordinates of a chunk index as they are. `normalize_chunk_index` brings
    /// them into the region.
    fn from(c: ChunkIndex) -> (index: RegionLocalIndex) {
        RegionLocalIndex(Point::new(c.0.x, c.0.y))
    }
}

impl vstd::std_specs::convert::FromSpecImpl<ChunkIndex> for RegionLocalIndex {
    open spec fn obeys_from_spec() -> bool {
        true
    }

    open spec fn from_spec(c: ChunkIndex) -> RegionLocalIndex {
        RegionLocalIndex(c.0)
    }
}

impl Index for RegionLocalIndex {
    open spec fn place(&self) -> Point {
        self.0
    }

    fn x(&self) -> (x: i32) {
        self.0.x
    }

    fn y(&self) -> (y: i32) {
        self.0.y
    }
}

impl RegionLocalIndex {
    /// Both coordinates lie inside a region.
    pub open spec fn in_region(self) -> bool {
        0 <= self.0.x < REGION_WIDTH && 0 <= self.0.y < REGION_WIDTH
    }
}

/// The index of a region in the grid of all regions.
#[derive(Copy, Clone, Debug, Hash, PartialEq, Eq, Structural)]
pub struct RegionIndex(pub Point);

impl Index for RegionIndex {
    open spec fn place(&self) -> Point {
        self.0
    }

    fn x(&self) -> (x: i32) {
        self.0.x
    }

    fn y(&self) -> (y: i32) {
        self.0.y
    }
}

impl RegionIndex {
    pub fn new(x: i32, y: i32) -> (index: RegionIndex)
        ensures
            index == RegionIndex(Point { x, y }),
    {
        RegionIndex(Point::new(x, y))
    }
}

/// The region that owns a chunk: floored division of both coordinates by the region width, so
/// that chunk (-1, -1) belongs to region (-1, -1).
pub open spec fn region_of(index: ChunkIndex) -> RegionIndex {
    RegionIndex(
        Point {
            x: floor_div(index.0.x as int, REGION_WIDTH as int) as i32,
            y: floor_div(index.0.y as int, REGION_WIDTH as int) as i32,
        },
    )
}

/// The place of a chunk inside the region that owns it: the floored remainder of both
/// coordinates.
pub open spec fn local_of(index: ChunkIndex) -> RegionLocalIndex {
    RegionLocalIndex(
        Point {
            x: floor_mod(index.0.x as int, REGION_WIDTH as int) as i32,
            y: floor_mod(index.0.y as int, REGION_WIDTH as int) as i32,
        },
    )
}

/// The number of a chunk's slot in the lookup table, rows first. Coordinates outside the region
/// are taken by their floored remainder.
pub open spec fn slot_number(index: RegionLocalIndex) -> int {
    floor_mod(index.0.y as int, REGION_WIDTH as int) * REGION_WIDTH + floor_mod(
        index.0.x as int,
        REGION_WIDTH as int,
    )
}

/// The byte offset of a chunk's slot in the lookup table.
pub open spec fn slot_offset(index: RegionLocalIndex) -> int {
    2 * slot_number(index)
}

/// The region and the place inside it give the chunk index back: each coordinate is the
/// region's coordinate times the region width plus the local coordinate, and the local
/// coordinates lie inside the region.
pub proof fn lemma_region_local_roundtrip(index: ChunkIndex)
    ensures
        local_of(index).in_region(),
        index.0.x == region_of(index).0.x * REGION_WIDTH + local_of(index).0.x,
        index.0.y == region_of(index).0.y * REGION_WIDTH + local_of(index).0.y,
{
    lemma_floor_div_mod(index.0.x as int, REGION_WIDTH as int);
    lemma_floor_div_mod(index.0.y as int, REGION_WIDTH as int);
}

/// Two chunks with the same region and the same place inside it are the same chunk.
pub proof fn lemma_region_local_injective(a: ChunkIndex, b: ChunkIndex)
    requires
        region_of(a) == region_of(b),
        local_of(a) == local_of(b),
    ensures
        a == b,
{
    lemma_region_local_roundtrip(a);
    lemma_region_local_roundtrip(b);
}

/// Every slot lies inside the lookup table, whatever the index.
pub proof fn lemma_slot_in_table(index: RegionLocalIndex)
    ensures
        0 <= slot_number(index) < REGION_SIZE,
        0 <= slot_offset(index),
        slot_offset(index) + 2 <= LOOKUP_TABLE_SIZE,
        index.in_region() ==> slot_number(index) == index.0.y * REGION_WIDTH + index.0.x,
{
    lemma_floor_div_mod(index.0.x as int, REGION_WIDTH as int);
    lemma_floor_div_mod(index.0.y as int, REGION_WIDTH as int);
    if index.in_region() {
        vstd::arithmetic::div_mod::lemma_small_mod(index.0.x as nat, REGION_WIDTH as nat);
        vstd::arithmetic::div_mod::lemma_small_mod(index.0.y as nat, REGION_WIDTH as nat);
    }
}

/// Two places inside a region with the same slot are the same place.
pub proof fn lemma_slot_injective(a: RegionLocalIndex, b: RegionLocalIndex)
    requires
        a.in_region(),
        b.in_region(),
        slot_number(a) == slot_number(b),
    ensures
        a == b,
{
    lemma_slot_in_table(a);
    lemma_slot_in_table(b);
}

/// Returns the index of the region that manages the chunk at the given index.
pub fn get_region_index(chunk_index: &ChunkIndex) -> (index: RegionIndex)
    ensures
        index == region_of(*chunk_index),
{
    RegionIndex::new(
        div_floor(chunk_index.0.x, REGION_WIDTH),
        div_floor(chunk_index.0.y, REGION_WIDTH),
    )
}

/// Obtains a chunk's index relative to the region that owns it.
pub fn normalize_chunk_index(chunk_index: &ChunkIndex) -> (index: RegionLocalIndex)
    ensures
        index == local_of(*chunk_index),
        index.in_region(),
{
    RegionLocalIndex(
        Point::new(
            mod_floor(chunk_index.0.x, REGION_WIDTH),
            mod_floor(chunk_index.0.y, REGION_WIDTH),
        ),
    )
}

/// Gets the offset into the lookup table of the slot for the chunk at an index.
pub fn get_chunk_offset(index: &RegionLocalIndex) -> (offset: u64)
    ensures
        offset == slot_offset(*index),
        offset + 2 <= LOOKUP_TABLE_SIZE,
{
    proof {
        lemma_slot_in_table(*index);
    }
    let x: i32 = mod_floor(index.0.x, REGION_WIDTH);
    let y: i32 = mod_floor(index.0.y, REGION_WIDTH);
    let slot: i32 = y * REGION_WIDTH + x;
    2 * (slot as u64)
}

/// What a read of `size` bytes from `offset` on finds: the file's bytes, and zeroes behind its
/// end.
pub open spec fn read_at(file: Seq<u8>, offset: int, size: int) -> Seq<u8> {
    Seq::new(
        size as nat,
        |i: int|
            if offset + i < file.len() {
                file[offset + i]
            } else {
                0u8
            },
    )
}

/// A region: the file that holds the chunks of one square of the world, and the chunks of
/// that square whose state in memory has not been written to the file.
///
/// A region groups the chunks of an area in one file, so that a save is a few files and not
/// one for every chunk. The file starts with a lookup table of one slot per chunk; a slot's
/// first byte is the offset of the chunk's record in sectors from the end of the table, its
/// second byte the number of sectors that the record takes. Both are limited to 255.
///
/// The region works on the bytes of the file. To read them from a disk, and to write them
/// back, is left to whoever holds the region.
pub struct Region {
    file: Vec<u8>,
    unsaved_chunks: PointSet,
}

impl Region {
    /// The bytes of the region's file.
    pub closed spec fn contents(self) -> Seq<u8> {
        self.file@
    }

    /// The chunks that are not saved, by their indices' points.
    pub closed spec fn unsaved(self) -> Set<Point> {
        self.unsaved_chunks@
    }

    /// No chunk is listed twice as unsaved.
    pub closed spec fn tracking_wf(self) -> bool {
        self.unsaved_chunks.wf()
    }

    /// The file is a region file, and no chunk is listed twice as unsaved.
    pub open spec fn wf(self) -> bool {
        &&& region_file_wf(self.contents())
        &&& self.tracking_wf()
    }

    /// Takes up the region file with the given bytes, or makes a new one where there is none
    /// yet: a lookup table of empty slots.
    pub fn load(existing: Option<Vec<u8>>) -> (region: Region)
        requires
            existing matches Some(bytes) ==> region_file_wf(bytes@),
        ensures
            region.wf(),
            region.unsaved() == Set::<Point>::empty(),
            region.contents() == match existing {
                Some(bytes) => bytes@,
                None => empty_region_file(),
            },
    {
        let file = match existing {
            Some(bytes) => bytes,
            None => {
                let table = vec![0u8; 512];
                assert(table@ =~= empty_region_file());
                table
            },
        };
        Region { file, unsaved_chunks: PointSet::new() }
    }

    /// Gives the region up and hands out the bytes of its file.
    pub fn into_file(self) -> (bytes: Vec<u8>)
        ensures
            bytes@ == self.contents(),
    {
        self.file
    }

    /// A copy of the bytes of the region's file.
    pub fn to_bytes(&self) -> (bytes: Vec<u8>)
        ensures
            bytes@ == self.contents(),
    {
        let bytes: Vec<u8> = self.file.clone();
        assert(bytes@ =~= self.file@);
        bytes
    }

    /// The length of the region's file in bytes.
    pub fn file_len(&self) -> (len: u64)
        ensures
            len == self.contents().len(),
    {
        self.file.len() as u64
    }

    pub fn chunk_unsaved(&self, index: &ChunkIndex) -> (unsaved: bool)
        requires
            self.wf(),
        ensures
            unsaved == self.unsaved().contains(index.0),
    {
        self.unsaved_chunks.contains(&index.0)
    }

    pub fn mark_as_saved(&mut self, index: &ChunkIndex)
        requires
            old(self).wf(),
        ensures
            final(self).wf(),
            final(self).contents() == old(self).contents(),
            final(self).unsaved() == old(self).unsaved().remove(index.0),
    {
        self.unsaved_chunks.remove(&index.0);
    }

    pub fn mark_as_unsaved(&mut self, index: &ChunkIndex)
        requires
            old(self).wf(),
        ensures
            final(self).wf(),
            final(self).contents() == old(self).contents(),
            final(self).unsaved() == old(self).unsaved().insert(index.0),
    {
        self.unsaved_chunks.insert(index.0);
    }

    /// Notifies this region that a chunk was created, so that the region tracks it until it
    /// is saved. The file is not touched.
    pub fn receive_created_chunk(&mut self, index: &ChunkIndex)
        requires
            old(self).wf(),
        ensures
            final(self).wf(),
            final(self).contents() == old(self).contents(),
            final(self).unsaved() == old(self).unsaved().insert(index.0),
    {
        self.unsaved_chunks.insert(index.0);
    }

    /// Whether every chunk of the region is saved, so that the region can be let go.
    pub fn is_empty(&self) -> (empty: bool)
        requires
            self.wf(),
        ensures
            empty == (self.unsaved() == Set::<Point>::empty()),
    {
        self.unsaved_chunks.is_empty()
    }

    /// The chunks that are not saved, each once.
    pub fn unsaved_indices(&self) -> (indices: Vec<Point>)
        requires
            self.wf(),
        ensures
            indices@.no_duplicates(),
            forall|p: Point| indices@.contains(p) <==> self.unsaved().contains(p),
    {
        self.unsaved_chunks.items()
    }

    /// The size of the lookup table in bytes.
    pub fn lookup_table_size() -> (size: u64)
        ensures
            size == LOOKUP_TABLE_SIZE,
            size == 2 * REGION_WIDTH * REGION_WIDTH,
    {
        LOOKUP_TABLE_SIZE
    }

    /// Returns the index of the region that manages the chunk at the given index.
    pub fn get_region_index(chunk_index: &ChunkIndex) -> (index: RegionIndex)
        ensures
            index == region_of(*chunk_index),
    {
        get_region_index(chunk_index)
    }

    /// Obtains a chunk's index relative to the region that owns it.
    pub fn normalize_chunk_index(chunk_index: &ChunkIndex) -> (index: RegionLocalIndex)
        ensures
            index == local_of(*chunk_index),
            index.in_region(),
    {
        normalize_chunk_index(chunk_index)
    }

    /// Gets the offset into the lookup table of the slot for the chunk at an index.
    pub fn get_chunk_offset(index: &RegionLocalIndex) -> (offset: u64)
        ensures
            offset == slot_offset(*index),
            offset + 2 <= LOOKUP_TABLE_SIZE,
    {
        get_chunk_offset(index)
    }

    /// The two bytes of a slot for a record of `sector_count` sectors that starts at the byte
    /// offset `eof`.
    fn create_lookup_table_entry(eof: u64, sector_count: u8) -> (entry: [u8; 2])
        requires
            eof >= LOOKUP_TABLE_SIZE,
            (eof - LOOKUP_TABLE_SIZE) / (SECTOR_SIZE as int) <= 255,
        ensures
            entry[0] == (eof - LOOKUP_TABLE_SIZE) / (SECTOR_SIZE as int),
            entry[1] == sector_count,
    {
        let offset: u8 = ((eof - LOOKUP_TABLE_SIZE) / (SECTOR_SIZE as u64)) as u8;
        [offset, sector_count]
    }

    /// Reads `size` bytes of the file from `offset` on. Behind the end of the file it reads
    /// zeroes.
    pub fn read_bytes(&self, offset: u64, size: usize) -> (buf: Vec<u8>)
        ensures
            buf@ == read_at(self.contents(), offset as int, size as int),
    {
        let len: usize = self.file.len();
        let mut buf: Vec<u8> = Vec::new();
        let mut i: usize = 0;
        while i < size
            invariant
                i <= size,
                len == self.file@.len(),
                buf@ == read_at(self.file@, offset as int, i as int),
            decreases size - i,
        {
            let byte: u8 = if offset < len as u64 && i < len - (offset as usize) {
                self.file[offset as usize + i]
            } else {
                0
            };
            buf.push(byte);
            assert(buf@ =~= read_at(self.file@, offset as int, i + 1));
            i += 1;
        }
        buf
    }

    /// Reads the offset and the size in bytes of a chunk's record from its slot; there is no
    /// size where the slot is empty.
    pub fn read_chunk_offset(&self, index: &RegionLocalIndex) -> (place: (u64, Option<usize>))
        requires
            self.wf(),
        ensures
            place.0 == record_start(self.contents(), slot_number(*index)),
            place.1 == if has_record(self.contents(), slot_number(*index)) {
                Some(record_len(self.contents(), slot_number(*index)) as usize)
            } else {
                None
            },
    {
        let offset: u64 = get_chunk_offset(index);
        let data: Vec<u8> = self.read_bytes(offset, 2);
        let sector: u8 = data[0];
        let count: u8 = data[1];
        let start: u64 = LOOKUP_TABLE_SIZE + (sector as u64) * (SECTOR_SIZE as u64);
        let size: Option<usize> = if count == 0 {
            None
        } else {
            Some((count as usize) * SECTOR_SIZE)
        };
        (start, size)
    }

    /// Points a slot at the record of `sector_count` sectors that starts at the byte offset
    /// `new_offset`.
    fn write_chunk_offset(&mut self, index: &RegionLocalIndex, new_offset: u64, sector_count: u8)
        requires
            old(self).contents().len() >= LOOKUP_TABLE_SIZE,
            new_offset >= LOOKUP_TABLE_SIZE,
            (new_offset - LOOKUP_TABLE_SIZE) / (SECTOR_SIZE as int) <= 255,
        ensures
            final(self).contents() == with_entry(
                old(self).contents(),
                slot_number(*index),
                ((new_offset - LOOKUP_TABLE_SIZE) / (SECTOR_SIZE as int)) as u8,
                sector_count,
            ),
            final(self).unsaved() == old(self).unsaved(),
            final(self).tracking_wf() == old(self).tracking_wf(),
    {
        let val: [u8; 2] = Region::create_lookup_table_entry(new_offset, sector_count);
        let offset: usize = get_chunk_offset(index) as usize;
        self.file[offset] = val[0];
        self.file[offset + 1] = val[1];
    }

    /// Puts a record behind the end of the file and points the chunk's slot at it. Nothing is
    /// written where the record's place or its size does not fit in a byte.
    fn append_chunk(&mut self, chunk_data: Vec<u8>, index: &RegionLocalIndex) -> (result:
        SerialResult<()>)
        requires
            old(self).wf(),
            !has_record(old(self).contents(), slot_number(*index)),
            chunk_data@.len() > 0,
            chunk_data@.len() % (SECTOR_SIZE as nat) == 0,
        ensures
            final(self).wf(),
            final(self).unsaved() == old(self).unsaved(),
            result is Ok <==> sectors_in(old(self).contents()) <= 255 && chunk_data@.len() / (
            SECTOR_SIZE as nat) <= 255,
            result is Ok ==> final(self).contents() == appended(
                old(self).contents(),
                slot_number(*index),
                chunk_data@,
            ),
            result is Err ==> result == Err::<(), SerialError>(SerialError::RegionFull)
                && final(self).contents() == old(self).contents(),
    {
        proof {
            lemma_slot_in_table(*index);
        }
        let sector_count: usize = chunk_data.len() / SECTOR_SIZE;
        let new_offset: u64 = self.file.len() as u64;
        let sector: u64 = (new_offset - LOOKUP_TABLE_SIZE) / (SECTOR_SIZE as u64);
        if sector_count > 255 || sector > 255 {
            return Err(SerialError::RegionFull);
        }
        proof {
            lemma_append_record(self.file@, slot_number(*index), chunk_data@);
        }
        self.file.extend_from_slice(chunk_data.as_slice());
        self.write_chunk_offset(index, new_offset, sector_count as u8);
        Ok(())
    }

    /// Writes a record over the bytes of the file from `byte_offset` on, all of which the
    /// file has.
    fn update_chunk(&mut self, chunk_data: Vec<u8>, byte_offset: u64)
        requires
            byte_offset + chunk_data@.len() <= old(self).contents().len(),
        ensures
            final(self).contents() == overwritten(
                old(self).contents(),
                byte_offset as int,
                chunk_data@,
            ),
            final(self).unsaved() == old(self).unsaved(),
            final(self).tracking_wf() == old(self).tracking_wf(),
    {
        let len: usize = self.file.len();
        let start: usize = byte_offset as usize;
        let mut i: usize = 0;
        while i < chunk_data.len()
            invariant
                i <= chunk_data@.len(),
                start == byte_offset,
                len == self.file@.len(),
                start + chunk_data@.len() <= len,
                self.file@
                    == overwritten(old(self).file@, start as int, chunk_data@.subrange(0,
                    i as int)),
                self.unsaved_chunks == old(self).unsaved_chunks,
            decreases chunk_data@.len() - i,
        {
            self.file[start + i] = chunk_data[i];
            assert(self.file@ =~= overwritten(
                old(self).file@,
                start as int,
                chunk_data@.subrange(0, i + 1),
            ));
            i += 1;
        }
        assert(chunk_data@.subrange(0, chunk_data@.len() as int) =~= chunk_data@);
    }

    /// Writes the bytes of a chunk's payload to the file and marks the chunk as saved.
    ///
    /// The bytes are padded with zeroes to whole sectors. A chunk that has a record keeps its
    /// place, and its record is written over in place, as far as the padded bytes go; the
    /// sectors reserved for it stay reserved where the new record is shorter. A chunk that has
    /// none gets a record behind the end of the file. Where a write is turned down, nothing
    /// changes, and the chunk stays unsaved.
    pub fn write_encoded(&mut self, encoded: Vec<u8>, index: &ChunkIndex) -> (result: SerialResult<()>)
        requires
            old(self).wf(),
            old(self).unsaved().contains(index.0),
        ensures
            final(self).wf(),
            match write_fault(old(self).contents(), slot_number(local_of(*index)), encoded@) {
                None => {
                    &&& result is Ok
                    &&& final(self).contents() == after_write(
                        old(self).contents(),
                        slot_number(local_of(*index)),
                        encoded@,
                    )
                    &&& final(self).unsaved() == old(self).unsaved().remove(index.0)
                },
                Some(fault) => {
                    &&& result == Err::<(), SerialError>(fault)
                    &&& final(self).contents() == old(self).contents()
                    &&& final(self).unsaved() == old(self).unsaved()
                },
            },
    {
        let normalized_idx: RegionLocalIndex = normalize_chunk_index(index);
        let (offset, size) = self.read_chunk_offset(&normalized_idx);
        proof {
            lemma_slot_in_table(normalized_idx);
            lemma_padded_len(encoded@.len(), SECTOR_SIZE as nat);
        }
        if encoded.len() >= 255 * SECTOR_SIZE {
            // More than 255 sectors: larger than any record and than any slot can say.
            return match size {
                Some(_) => Err(SerialError::RecordGrewPastAllocation),
                None => Err(SerialError::RegionFull),
            };
        }
        let mut padded_bytes: Vec<u8> = encoded;
        pad_byte_vec(&mut padded_bytes, SECTOR_SIZE);
        match size {
            Some(size) => {
                if size < padded_bytes.len() {
                    return Err(SerialError::RecordGrewPastAllocation);
                }
                proof {
                    lemma_overwrite_record(
                        self.file@,
                        slot_number(normalized_idx),
                        padded_bytes@,
                    );
                }
                self.update_chunk(padded_bytes, offset);
            },
            None => {
                match self.append_chunk(padded_bytes, &normalized_idx) {
                    Ok(()) => {},
                    Err(e) => {
                        return Err(e);
                    },
                }
            },
        }
        self.mark_as_saved(index);
        Ok(())
    }

    /// Reads the bytes reserved for a chunk's record: the padded payload that was written
    /// last, and behind it what a longer record had left.
    pub fn read_encoded(&self, index: &ChunkIndex) -> (result: SerialResult<Vec<u8>>)
        requires
            self.wf(),
            !self.unsaved().contains(index.0),
        ensures
            match stored(self.contents(), slot_number(local_of(*index))) {
                Some(bytes) => result matches Ok(buf) && buf@ == bytes,
                None => result == Err::<Vec<u8>, SerialError>(
                    SerialError::NoChunkInSavefile(local_of(*index)),
                ),
            },
    {
        let normalized_idx: RegionLocalIndex = normalize_chunk_index(index);
        let (offset, size_opt) = self.read_chunk_offset(&normalized_idx);
        let size: usize = match size_opt {
            Some(s) => s,
            None => {
                return Err(SerialError::NoChunkInSavefile(normalized_idx));
            },
        };
        let buf: Vec<u8> = self.read_bytes(offset, size);
        proof {
            lemma_slot_in_table(normalized_idx);
            let slot = slot_number(normalized_idx);
            assert(has_record(self.file@, slot));
            assert(entry_sector(self.file@, slot) + entry_count(self.file@, slot) <= sectors_in(
                self.file@,
            ));
            assert(buf@ =~= record(self.file@, slot));
        }
        Ok(buf)
    }

    /// Writes a chunk at an index to the file and marks it as saved: the codec turns the chunk
    /// and its dudes into bytes, and `write_encoded` writes them. Where the codec fails or the
    /// write is turned down, nothing changes.
    pub fn write_chunk<K: ChunkCodec>(
        &mut self,
        codec: &K,
        chunk: &Chunk,
        dudes: &Vec<(WorldPosition, &Dude)>,
        index: &ChunkIndex,
    ) -> (result: SerialResult<()>)
        requires
            old(self).wf(),
            old(self).unsaved().contains(index.0),
        ensures
            final(self).wf(),
            match codec.encoding(*chunk, dudes_of(dudes@)) {
                Some(encoded) => match write_fault(
                    old(self).contents(),
                    slot_number(local_of(*index)),
                    encoded,
                ) {
                    None => {
                        &&& result is Ok
                        &&& final(self).contents() == after_write(
                            old(self).contents(),
                            slot_number(local_of(*index)),
                            encoded,
                        )
                        &&& final(self).unsaved() == old(self).unsaved().remove(index.0)
                    },
                    Some(fault) => {
                        &&& result == Err::<(), SerialError>(fault)
                        &&& final(self).contents() == old(self).contents()
                        &&& final(self).unsaved() == old(self).unsaved()
                    },
                },
                None => {
                    &&& result matches Err(SerialError::EncodingError(_))
                    &&& final(self).contents() == old(self).contents()
                    &&& final(self).unsaved() == old(self).unsaved()
                },
            },
    {
        match codec.encode(chunk, dudes) {
            Ok(encoded) => self.write_encoded(encoded, index),
            Err(e) => Err(SerialError::from(e)),
        }
    }

    /// Reads a chunk from the file and marks it as unsaved, since the copy in memory may
    /// change before it is written back: `read_encoded` finds the bytes of the record, and the
    /// codec turns them into the chunk and its dudes. Where there is no record or the codec
    /// fails, nothing changes. The file never does.
    pub fn read_chunk<K: ChunkCodec>(&mut self, codec: &K, index: &ChunkIndex) -> (result: SerialResult<
        SerialChunk,
    >)
        requires
            old(self).wf(),
            !old(self).unsaved().contains(index.0),
        ensures
            final(self).wf(),
            final(self).contents() == old(self).contents(),
            match stored(old(self).contents(), slot_number(local_of(*index))) {
                None => {
                    &&& result == Err::<SerialChunk, SerialError>(
                        SerialError::NoChunkInSavefile(local_of(*index)),
                    )
                    &&& final(self).unsaved() == old(self).unsaved()
                },
                Some(bytes) => match codec.decoding(bytes) {
                    Some(payload) => {
                        &&& result matches Ok(found)
                        &&& (found.chunk, found.dudes@) == payload
                        &&& final(self).unsaved() == old(self).unsaved().insert(index.0)
                    },
                    None => {
                        &&& result matches Err(SerialError::EncodingError(_))
                        &&& final(self).unsaved() == old(self).unsaved()
                    },
                },
            },
    {
        let buf: Vec<u8> = match self.read_encoded(index) {
            Ok(buf) => buf,
            Err(e) => {
                return Err(e);
            },
        };
        match codec.decode(&buf) {
            Ok(dat) => {
                self.mark_as_unsaved(index);
                Ok(dat)
            },
            Err(e) => Err(SerialError::from(e)),
        }
    }
}

} // verus!
