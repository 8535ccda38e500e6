//! The regions of a save: which are open, and the files of all of them.

use vstd::prelude::*;
use crate::chunk::{Chunk, ChunkIndex, SerialChunk};
use crate::codec::{ChunkCodec, dudes_of, padded};
use crate::dude::Dude;
use crate::format::{
    after_write, empty_region_file, is_region_file, lemma_empty_region_file, lemma_write_then_read,
    region_file_wf, stored, write_fault,
};
use crate::point::{Point, WorldPosition};
use crate::point_map::{has_key, lemma_entry_in_map, PointMap};
use crate::region::{
    get_region_index, lemma_region_local_injective, lemma_region_local_roundtrip,
    lemma_slot_in_table, lemma_slot_injective, local_of, Region, region_of, RegionIndex,
    SECTOR_SIZE, SerialError, SerialResult, slot_number,
};

verus! {

/// Every chunk that the region lists as unsaved belongs to the region at `place`.
pub open spec fn owns_unsaved(place: Point, region: Region) -> bool {
    forall|q: Point| #[trigger] region.unsaved().contains(q) ==> region_of(ChunkIndex(q)).0 == place
}

/// The files of a save can be taken up: each is a region file, and no region has two.
pub open spec fn acceptable(files: Seq<(RegionIndex, Vec<u8>)>) -> bool {
    &&& forall|i: int| 0 <= i < files.len() ==> region_file_wf((#[trigger] files[i]).1@)
    &&& forall|i: int, j: int| 0 <= i < j < files.len() ==> files[i].0 != files[j].0
}

/// The list of files has one for the region.
pub open spec fn lists(files: Seq<(RegionIndex, Vec<u8>)>, index: RegionIndex) -> bool {
    exists|i: int| 0 <= i < files.len() && (#[trigger] files[i]).0 == index
}

/// Keeps the regions of a save: those that are open, each with the chunks that it has to
/// write back, and the bytes of the files of those that are not. A region is opened when a
/// chunk of it is first asked for, and let go when it has nothing left to write.
///
/// The manager holds the files of the save as bytes. `add_file` and `with_files` take in what
/// was read from a disk, and `files` and `into_files` hand out what is to be written there.
pub struct RegionManager {
    regions: PointMap<Region>,
    files: PointMap<Vec<u8>>,
}

impl RegionManager {
    /// The regions that are open, by their indices' points.
    pub closed spec fn open_regions(self) -> Map<Point, Region> {
        self.regions@
    }

    /// The bytes of the region files that are not open.
    pub closed spec fn closed_files(self) -> Map<Point, Seq<u8>> {
        Map::new(|p: Point| self.files@.contains_key(p), |p: Point| self.files@[p]@)
    }

    /// No region and no file is listed twice.
    pub closed spec fn storage_wf(self) -> bool {
        self.regions.wf() && self.files.wf()
    }

    /// Every file is a region file and is listed once, open or not, and an open region tracks
    /// chunks of its own only.
    pub open spec fn wf(self) -> bool {
        &&& self.storage_wf()
        &&& forall|p: Point| #[trigger]
            self.open_regions().contains_key(p) ==> {
                &&& !self.closed_files().contains_key(p)
                &&& self.open_regions()[p].wf()
                &&& owns_unsaved(p, self.open_regions()[p])
            }
        &&& forall|p: Point| #[trigger]
            self.closed_files().contains_key(p) ==> region_file_wf(self.closed_files()[p])
    }

    /// The region at an index is open.
    pub open spec fn is_open(self, index: RegionIndex) -> bool {
        self.open_regions().contains_key(index.0)
    }

    /// The save has a file for the region at an index.
    pub open spec fn has_file(self, index: RegionIndex) -> bool {
        self.open_regions().contains_key(index.0) || self.closed_files().contains_key(index.0)
    }

    /// The bytes of the file of the region at an index. A region that has no file yet gets a
    /// new one when it is opened, so it counts as having a new one.
    pub open spec fn region_file(self, index: RegionIndex) -> Seq<u8> {
        if self.open_regions().contains_key(index.0) {
            self.open_regions()[index.0].contents()
        } else if self.closed_files().contains_key(index.0) {
            self.closed_files()[index.0]
        } else {
            empty_region_file()
        }
    }

    /// The chunk is listed as unsaved by the region that owns it.
    pub open spec fn chunk_unsaved(self, index: ChunkIndex) -> bool {
        &&& self.open_regions().contains_key(region_of(index).0)
        &&& self.open_regions()[region_of(index).0].unsaved().contains(index.0)
    }

    /// What the save holds for a chunk: the bytes of its record, if it has one.
    pub open spec fn stored_chunk(self, index: ChunkIndex) -> Option<Seq<u8>> {
        stored(self.region_file(region_of(index)), slot_number(local_of(index)))
    }

    /// Every file of the save is a region file.
    pub proof fn lemma_region_file_wf(self, index: RegionIndex)
        requires
            self.wf(),
        ensures
            region_file_wf(self.region_file(index)),
    {
        lemma_empty_region_file();
        if self.open_regions().contains_key(index.0) {
        } else if self.closed_files().contains_key(index.0) {
        }
    }

    /// A manager of a save that has no files yet.
    pub fn new() -> (manager: Self)
        ensures
            manager.wf(),
            manager.open_regions() == Map::<Point, Region>::empty(),
            manager.closed_files() == Map::<Point, Seq<u8>>::empty(),
    {
        let manager = RegionManager { regions: PointMap::new(), files: PointMap::new() };
        assert(manager.closed_files() =~= Map::<Point, Seq<u8>>::empty());
        manager
    }

    /// Opens the region at an index, if it is not open: on its file where the save has one,
    /// on a new file where it has none.
    pub fn load(&mut self, index: RegionIndex)
        requires
            old(self).wf(),
        ensures
            final(self).wf(),
            final(self).is_open(index),
            old(self).is_open(index) ==> final(self).open_regions() == old(self).open_regions()
                && final(self).closed_files() == old(self).closed_files(),
            !old(self).is_open(index) ==> {
                &&& final(self).open_regions() == old(self).open_regions().insert(
                    index.0,
                    final(self).open_regions()[index.0],
                )
                &&& final(self).open_regions()[index.0].contents() == old(self).region_file(index)
                &&& final(self).open_regions()[index.0].unsaved() == Set::<Point>::empty()
                &&& final(self).closed_files() == old(self).closed_files().remove(index.0)
            },
    {
        if self.regions.contains_key(&index.0) {
            return ;
        }
        let existing: Option<Vec<u8>> = self.files.remove(&index.0);
        proof {
            if existing is Some {
                assert(old(self).closed_files().contains_key(index.0));
            }
            lemma_empty_region_file();
        }
        let region = Region::load(existing);
        self.regions.insert(index.0, region);
        assert(self.closed_files() =~= old(self).closed_files().remove(index.0));
        assert(self.open_regions() =~= old(self).open_regions().insert(
            index.0,
            self.open_regions()[index.0],
        ));
        assert forall|p: Point| #[trigger] self.closed_files().contains_key(p) implies region_file_wf(
            self.closed_files()[p],
        ) by {
            assert(old(self).closed_files().contains_key(p));
        }
        assert forall|p: Point| #[trigger] self.open_regions().contains_key(p) implies {
            &&& !self.closed_files().contains_key(p)
            &&& self.open_regions()[p].wf()
            &&& owns_unsaved(p, self.open_regions()[p])
        } by {
            if p != index.0 {
                assert(old(self).open_regions().contains_key(p));
            }
        }
    }

    pub fn region_loaded(&self, index: &RegionIndex) -> (loaded: bool)
        requires
            self.wf(),
        ensures
            loaded == self.is_open(*index),
    {
        self.regions.contains_key(&index.0)
    }

    /// The indices of the open regions, each once.
    pub fn region_indices(&self) -> (indices: Vec<RegionIndex>)
        requires
            self.wf(),
        ensures
            forall|i: int, j: int| 0 <= i < j < indices@.len() ==> indices@[i] != indices@[j],
            forall|index: RegionIndex| indices@.contains(index) <==> self.is_open(index),
    {
        let keys: Vec<Point> = self.regions.keys();
        let mut indices: Vec<RegionIndex> = Vec::new();
        let mut i: usize = 0;
        while i < keys.len()
            invariant
                i <= keys@.len(),
                indices@.len() == i,
                forall|j: int| 0 <= j < i ==> indices@[j] == RegionIndex(keys@[j]),
            decreases keys@.len() - i,
        {
            indices.push(RegionIndex(keys[i]));
            i += 1;
        }
        proof {
            assert forall|index: RegionIndex| indices@.contains(index) <==> self.is_open(index) by {
                if indices@.contains(index) {
                    let j = choose|j: int| 0 <= j < indices@.len() && indices@[j] == index;
                    assert(keys@.contains(keys@[j]));
                }
                if self.is_open(index) {
                    assert(keys@.contains(index.0));
                    let j = choose|j: int| 0 <= j < keys@.len() && keys@[j] == index.0;
                    assert(indices@[j] == index);
                }
            }
        }
        indices
    }

    pub fn get(&self, index: &RegionIndex) -> (region: Option<&Region>)
        requires
            self.wf(),
        ensures
            match region {
                Some(r) => self.is_open(*index) && *r == self.open_regions()[index.0],
                None => !self.is_open(*index),
            },
    {
        self.regions.get(&index.0)
    }

    /// Lends out the open region at an index for a change in place.
    pub fn get_mut(&mut self, index: &RegionIndex) -> (region: Option<&mut Region>)
        requires
            old(self).wf(),
        ensures
            final(self).storage_wf(),
            final(self).closed_files() == old(self).closed_files(),
            match region {
                Some(r) => {
                    &&& old(self).is_open(*index)
                    &&& *r == old(self).open_regions()[index.0]
                    &&& final(self).open_regions() == old(self).open_regions().insert(
                        index.0,
                        *final(r),
                    )
                },
                None => !old(self).is_open(*index)
                    && final(self).open_regions() == old(self).open_regions(),
            },
    {
        self.regions.get_mut(&index.0)
    }

    /// Lets the open region at an index go. Its file stays in the save.
    pub fn remove(&mut self, index: &RegionIndex)
        requires
            old(self).wf(),
        ensures
            final(self).wf(),
            final(self).open_regions() == old(self).open_regions().remove(index.0),
            final(self).closed_files() == if old(self).is_open(*index) {
                old(self).closed_files().insert(
                    index.0,
                    old(self).open_regions()[index.0].contents(),
                )
            } else {
                old(self).closed_files()
            },
            forall|other: RegionIndex| final(self).region_file(other) == old(self).region_file(other),
    {
        match self.regions.remove(&index.0) {
            Some(region) => {
                let bytes: Vec<u8> = region.into_file();
                self.files.insert(index.0, bytes);
                assert(self.closed_files() =~= old(self).closed_files().insert(
                    index.0,
                    old(self).open_regions()[index.0].contents(),
                ));
                assert(old(self).open_regions().contains_key(index.0));
            },
            None => {
                assert(self.open_regions() =~= old(self).open_regions());
                assert(self.closed_files() =~= old(self).closed_files());
            },
        }
        proof {
            assert forall|p: Point| #[trigger] self.closed_files().contains_key(p) implies
                region_file_wf(
                self.closed_files()[p],
            ) by {
                if p != index.0 {
                    assert(old(self).closed_files().contains_key(p));
                }
            }
            assert forall|p: Point| #[trigger] self.open_regions().contains_key(p) implies {
                &&& !self.closed_files().contains_key(p)
                &&& self.open_regions()[p].wf()
                &&& owns_unsaved(p, self.open_regions()[p])
            } by {
                assert(old(self).open_regions().contains_key(p));
            }
            assert forall|other: RegionIndex| self.region_file(other) == old(self).region_file(
                other,
            ) by {
                if old(self).open_regions().contains_key(other.0) {
                }
                if old(self).closed_files().contains_key(other.0) {
                }
            }
        }
    }

    /// Returns the index of the region that manages the chunk at the given index.
    pub fn get_region_index(chunk_index: &ChunkIndex) -> (index: RegionIndex)
        ensures
            index == region_of(*chunk_index),
    {
        get_region_index(chunk_index)
    }

    /// Lends out the region that owns a chunk, and opens it first if it is not open.
    pub fn get_for_chunk(&mut self, chunk_index: &ChunkIndex) -> (region: &mut Region)
        requires
            old(self).wf(),
        ensures
            region.wf(),
            owns_unsaved(region_of(*chunk_index).0, *region),
            region.contents() == old(self).region_file(region_of(*chunk_index)),
            region.unsaved().contains(chunk_index.0) == old(self).chunk_unsaved(*chunk_index),
            old(self).is_open(region_of(*chunk_index)) ==> *region == old(self).open_regions()[region_of(
                *chunk_index,
            ).0],
            !old(self).is_open(region_of(*chunk_index)) ==> region.unsaved() == Set::<Point>::empty(),
            final(self).storage_wf(),
            final(self).open_regions() == old(self).open_regions().insert(
                region_of(*chunk_index).0,
                *final(region),
            ),
            final(self).closed_files() == old(self).closed_files().remove(
                region_of(*chunk_index).0,
            ),
    {
        let region_index: RegionIndex = get_region_index(chunk_index);
        if !self.region_loaded(&region_index) {
            self.load(region_index);
        } else {
            assert(self.closed_files().remove(region_index.0) =~= self.closed_files());
        }
        let ghost opened = *self;
        let region = self.get_mut(&region_index).unwrap();
        proof {
            assert(opened.open_regions().insert(region_index.0, *final(region))
                =~= old(self).open_regions().insert(region_index.0, *final(region)));
        }
        region
    }

    /// What follows where one region was opened or changed and nothing else was.
    pub proof fn lemma_region_changed(self, after: RegionManager, index: RegionIndex, region: Region)
        requires
            self.wf(),
            after.storage_wf(),
            after.open_regions() == self.open_regions().insert(index.0, region),
            after.closed_files() == self.closed_files().remove(index.0),
            region.wf(),
            owns_unsaved(index.0, region),
        ensures
            after.wf(),
            after.region_file(index) == region.contents(),
            forall|other: RegionIndex|
                other != index ==> #[trigger] after.region_file(other) == self.region_file(other),
            forall|chunk: ChunkIndex|
                region_of(chunk) != index ==> #[trigger] after.chunk_unsaved(chunk)
                    == self.chunk_unsaved(chunk),
            forall|chunk: ChunkIndex|
                region_of(chunk) == index ==> #[trigger] after.chunk_unsaved(chunk)
                    == region.unsaved().contains(chunk.0),
    {
        assert forall|p: Point| #[trigger] after.open_regions().contains_key(p) implies {
            &&& !after.closed_files().contains_key(p)
            &&& after.open_regions()[p].wf()
            &&& owns_unsaved(p, after.open_regions()[p])
        } by {
            if p != index.0 {
                assert(self.open_regions().contains_key(p));
            }
        }
        assert forall|p: Point| #[trigger] after.closed_files().contains_key(p) implies region_file_wf(
            after.closed_files()[p],
        ) by {
            assert(self.closed_files().contains_key(p));
        }
        assert forall|other: RegionIndex| other != index implies #[trigger] after.region_file(other)
            == self.region_file(other) by {
            assert(other.0 != index.0);
        }
        assert forall|chunk: ChunkIndex| region_of(chunk) != index implies
            #[trigger] after.chunk_unsaved(
            chunk,
        ) == self.chunk_unsaved(chunk) by {
            assert(region_of(chunk).0 != index.0);
        }
    }

    /// What a write for one chunk does to what the save holds for every chunk: the chunk's
    /// record starts with the padded payload, and every other chunk's record is what it was.
    pub proof fn lemma_chunk_written(
        self,
        after: RegionManager,
        chunk: ChunkIndex,
        payload: Seq<u8>,
    )
        requires
            self.wf(),
            write_fault(self.region_file(region_of(chunk)), slot_number(local_of(chunk)),
                payload) is None,
            after.region_file(region_of(chunk)) == after_write(
                self.region_file(region_of(chunk)),
                slot_number(local_of(chunk)),
                payload,
            ),
            forall|other: RegionIndex|
                other != region_of(chunk) ==> #[trigger] after.region_file(other) == self.region_file(
                    other,
                ),
        ensures
            after.stored_chunk(chunk) is Some,
            padded(payload, SECTOR_SIZE as nat).is_prefix_of(after.stored_chunk(chunk).unwrap()),
            !(self.stored_chunk(chunk) is Some) ==> after.stored_chunk(chunk) == Some(
                padded(payload, SECTOR_SIZE as nat),
            ),
            forall|other: ChunkIndex|
                other != chunk ==> #[trigger] after.stored_chunk(other) == self.stored_chunk(other),
    {
        let file = self.region_file(region_of(chunk));
        let slot = slot_number(local_of(chunk));
        self.lemma_region_file_wf(region_of(chunk));
        lemma_region_local_roundtrip(chunk);
        lemma_slot_in_table(local_of(chunk));
        lemma_write_then_read(file, slot, payload);
        assert forall|other: ChunkIndex| other != chunk implies #[trigger] after.stored_chunk(other)
            == self.stored_chunk(other) by {
            if region_of(other) == region_of(chunk) {
                lemma_region_local_roundtrip(other);
                lemma_slot_in_table(local_of(other));
                if slot_number(local_of(other)) == slot {
                    lemma_slot_injective(local_of(other), local_of(chunk));
                    lemma_region_local_injective(other, chunk);
                }
            }
        }
    }

    /// Tells the region that owns a chunk that the chunk was created, so that it tracks the
    /// chunk until it is saved. No file changes.
    pub fn notify_chunk_creation(&mut self, chunk_index: &ChunkIndex)
        requires
            old(self).wf(),
        ensures
            final(self).wf(),
            final(self).chunk_unsaved(*chunk_index),
            forall|other: ChunkIndex|
                other != *chunk_index
                    ==> #[trigger] final(self).chunk_unsaved(other)
                    == old(self).chunk_unsaved(other),
            forall|index: RegionIndex| #[trigger]
                final(self).region_file(index) == old(self).region_file(index),
    {
        let region = self.get_for_chunk(chunk_index);
        let ghost before = *region;
        region.receive_created_chunk(chunk_index);
        proof {
            let after = *region;
            assert(owns_unsaved(region_of(*chunk_index).0, after)) by {
                assert forall|q: Point| #[trigger] after.unsaved().contains(q) implies region_of(
                    ChunkIndex(q),
                ).0 == region_of(*chunk_index).0 by {
                    if q != chunk_index.0 {
                        assert(before.unsaved().contains(q));
                    }
                }
            }
            old(self).lemma_region_changed(*final(self), region_of(*chunk_index), after);
            assert forall|other: ChunkIndex| other != *chunk_index implies
                #[trigger] final(self).chunk_unsaved(other) == old(self).chunk_unsaved(other) by {
                if region_of(other) == region_of(*chunk_index) {
                    assert(other.0 != chunk_index.0);
                }
            }
        }
    }

    /// Reads a chunk from the region that owns it, and opens the region first if it is not
    /// open. See `Region::read_chunk`.
    pub fn read_chunk<K: ChunkCodec>(&mut self, codec: &K, index: &ChunkIndex) -> (result: SerialResult<
        SerialChunk,
    >)
        requires
            old(self).wf(),
            !old(self).chunk_unsaved(*index),
        ensures
            final(self).wf(),
            forall|other: RegionIndex| #[trigger]
                final(self).region_file(other) == old(self).region_file(other),
            forall|other: ChunkIndex|
                other != *index
                    ==> #[trigger] final(self).chunk_unsaved(other)
                    == old(self).chunk_unsaved(other),
            final(self).chunk_unsaved(*index) == (result is Ok),
            match old(self).stored_chunk(*index) {
                None => result == Err::<SerialChunk, SerialError>(
                    SerialError::NoChunkInSavefile(local_of(*index)),
                ),
                Some(bytes) => match codec.decoding(bytes) {
                    Some(payload) => result matches Ok(found) && (found.chunk, found.dudes@)
                        == payload,
                    None => result matches Err(SerialError::EncodingError(_)),
                },
            },
    {
        let region = self.get_for_chunk(index);
        let ghost before = *region;
        let result = region.read_chunk(codec, index);
        proof {
            let after = *region;
            assert(owns_unsaved(region_of(*index).0, after)) by {
                assert forall|q: Point| #[trigger] after.unsaved().contains(q) implies region_of(
                    ChunkIndex(q),
                ).0 == region_of(*index).0 by {
                    if q != index.0 {
                        assert(before.unsaved().contains(q));
                    }
                }
            }
            old(self).lemma_region_changed(*final(self), region_of(*index), after);
            assert forall|other: ChunkIndex| other != *index implies
                #[trigger] final(self).chunk_unsaved(other) == old(self).chunk_unsaved(other) by {
                if region_of(other) == region_of(*index) {
                    assert(other.0 != index.0);
                }
            }
            assert forall|other: RegionIndex| #[trigger]
                final(self).region_file(other) == old(self).region_file(other) by {
                if other != region_of(*index) {
                }
            }
        }
        result
    }

    /// Writes a chunk to the region that owns it. See `Region::write_chunk`.
    pub fn write_chunk<K: ChunkCodec>(
        &mut self,
        codec: &K,
        chunk: &Chunk,
        dudes: &Vec<(WorldPosition, &Dude)>,
        index: &ChunkIndex,
    ) -> (result: SerialResult<()>)
        requires
            old(self).wf(),
            old(self).chunk_unsaved(*index),
        ensures
            final(self).wf(),
            forall|other: RegionIndex|
                other != region_of(*index)
                    ==> #[trigger] final(self).region_file(other) == old(self).region_file(other),
            forall|other: ChunkIndex|
                other != *index
                    ==> #[trigger] final(self).chunk_unsaved(other)
                    == old(self).chunk_unsaved(other),
            forall|other: ChunkIndex|
                other != *index
                    ==> #[trigger] final(self).stored_chunk(other) == old(self).stored_chunk(other),
            final(self).chunk_unsaved(*index) == (result is Err),
            result is Err ==> final(self).region_file(region_of(*index)) == old(self).region_file(
                region_of(*index),
            ),
            match codec.encoding(*chunk, dudes_of(dudes@)) {
                Some(encoded) => match write_fault(
                    old(self).region_file(region_of(*index)),
                    slot_number(local_of(*index)),
                    encoded,
                ) {
                    None => {
                        &&& result is Ok
                        &&& final(self).region_file(region_of(*index)) == after_write(
                            old(self).region_file(region_of(*index)),
                            slot_number(local_of(*index)),
                            encoded,
                        )
                        &&& final(self).stored_chunk(*index) is Some
                        &&& padded(encoded, SECTOR_SIZE as nat).is_prefix_of(
                            final(self).stored_chunk(*index).unwrap(),
                        )
                    },
                    Some(fault) => result == Err::<(), SerialError>(fault),
                },
                None => result matches Err(SerialError::EncodingError(_)),
            },
    {
        let region = self.get_for_chunk(index);
        let ghost before = *region;
        let result = region.write_chunk(codec, chunk, dudes, index);
        proof {
            let after = *region;
            assert(owns_unsaved(region_of(*index).0, after)) by {
                assert forall|q: Point| #[trigger] after.unsaved().contains(q) implies region_of(
                    ChunkIndex(q),
                ).0 == region_of(*index).0 by {
                    assert(before.unsaved().contains(q));
                }
            }
            old(self).lemma_region_changed(*final(self), region_of(*index), after);
            assert forall|other: ChunkIndex| other != *index implies
                #[trigger] final(self).chunk_unsaved(other) == old(self).chunk_unsaved(other) by {
                if region_of(other) == region_of(*index) {
                    assert(other.0 != index.0);
                }
            }
            if result is Ok {
                let encoded = codec.encoding(*chunk, dudes_of(dudes@)).unwrap();
                old(self).lemma_chunk_written(*final(self), *index, encoded);
            } else {
                assert forall|other: ChunkIndex| other != *index implies
                    #[trigger] final(self).stored_chunk(other) == old(self).stored_chunk(other) by {
                    if region_of(other) != region_of(*index) {
                    }
                }
            }
        }
        result
    }

    /// Lets every open region go that has no chunk left to write. The files stay in the
    /// save, and what is tracked stays tracked.
    pub fn prune_empty(&mut self)
        requires
            old(self).wf(),
        ensures
            final(self).wf(),
            forall|index: RegionIndex| #[trigger]
                final(self).region_file(index) == old(self).region_file(index),
            forall|chunk: ChunkIndex| #[trigger]
                final(self).chunk_unsaved(chunk) == old(self).chunk_unsaved(chunk),
            forall|index: RegionIndex| #[trigger]
                final(self).is_open(index)
                    <==> old(self).is_open(index)
                    && old(self).open_regions()[index.0].unsaved() != Set::<Point>::empty(),
            forall|index: RegionIndex| #[trigger]
                final(self).is_open(index)
                    ==> final(self).open_regions()[index.0] == old(self).open_regions()[index.0],
    {
        let indices: Vec<RegionIndex> = self.region_indices();
        let mut i: usize = 0;
        while i < indices.len()
            invariant
                i <= indices@.len(),
                self.wf(),
                forall|a: int, b: int| 0 <= a < b < indices@.len() ==> indices@[a] != indices@[b],
                forall|index: RegionIndex| indices@.contains(index) <==> old(self).is_open(index),
                forall|index: RegionIndex| #[trigger]
                    self.region_file(index) == old(self).region_file(index),
                forall|index: RegionIndex| #[trigger]
                    self.is_open(index) ==> old(self).is_open(index) && self.open_regions()[index.0]
                        == old(self).open_regions()[index.0],
                forall|j: int|
                    0 <= j < i
                        ==> (self.is_open(#[trigger] indices@[j])
                        <==> old(self).open_regions()[indices@[j].0].unsaved()
                        != Set::<Point>::empty()),
                forall|j: int| i <= j < indices@.len() ==> self.is_open(#[trigger] indices@[j]),
            decreases indices@.len() - i,
        {
            let idx: RegionIndex = indices[i];
            let empty: bool = match self.get(&idx) {
                Some(region) => region.is_empty(),
                None => false,
            };
            if empty {
                let ghost before = *self;
                self.remove(&idx);
                proof {
                    assert forall|index: RegionIndex| #[trigger] self.is_open(index) implies
                        old(self).is_open(index)
                        && self.open_regions()[index.0] == old(self).open_regions()[index.0] by {
                        assert(before.is_open(index));
                    }
                    assert forall|j: int| i < j < indices@.len() implies self.is_open(
                        #[trigger] indices@[j],
                    ) by {
                        assert(indices@[i as int] != indices@[j]);
                        assert(before.is_open(indices@[j]));
                    }
                    assert forall|j: int| 0 <= j < i implies
                        (self.is_open(#[trigger] indices@[j])
                        <==> old(self).open_regions()[indices@[j].0].unsaved()
                        != Set::<Point>::empty()) by {
                        assert(indices@[j] != indices@[i as int]);
                        assert(before.is_open(indices@[j]) == self.is_open(indices@[j]));
                    }
                }
            } else {
                assert(indices@.contains(idx));
            }
            i += 1;
        }
        proof {
            assert forall|index: RegionIndex| #[trigger]
                self.is_open(index)
                    <==> old(self).is_open(index)
                    && old(self).open_regions()[index.0].unsaved() != Set::<Point>::empty() by {
                if old(self).is_open(index) {
                    assert(indices@.contains(index));
                    let j = choose|j: int| 0 <= j < indices@.len() && indices@[j] == index;
                    assert(indices@[j] == index);
                }
            }
            assert forall|chunk: ChunkIndex| #[trigger]
                self.chunk_unsaved(chunk) == old(self).chunk_unsaved(chunk) by {
                let index = region_of(chunk);
                if old(self).chunk_unsaved(chunk) {
                    assert(old(self).open_regions()[index.0].unsaved().contains(chunk.0));
                    assert(self.is_open(index));
                }
                if self.chunk_unsaved(chunk) {
                    assert(self.is_open(index));
                }
            }
        }
    }

    /// Takes a file into the save, if the save has none for the region yet and the bytes are
    /// a region file, and says whether it did.
    pub fn add_file(&mut self, index: RegionIndex, bytes: Vec<u8>) -> (accepted: bool)
        requires
            old(self).wf(),
        ensures
            final(self).wf(),
            accepted <==> !old(self).has_file(index) && region_file_wf(bytes@),
            final(self).open_regions() == old(self).open_regions(),
            accepted ==> final(self).closed_files() == old(self).closed_files().insert(
                index.0,
                bytes@,
            ),
            !accepted ==> final(self).closed_files() == old(self).closed_files(),
    {
        if self.regions.contains_key(&index.0) || self.files.contains_key(&index.0) {
            return false;
        }
        if !is_region_file(&bytes) {
            return false;
        }
        self.files.insert(index.0, bytes);
        proof {
            assert(self.closed_files() =~= old(self).closed_files().insert(index.0, bytes@));
            assert forall|p: Point| #[trigger] self.closed_files().contains_key(p) implies
                region_file_wf(
                self.closed_files()[p],
            ) by {
                if p != index.0 {
                    assert(old(self).closed_files().contains_key(p));
                }
            }
            assert forall|p: Point| #[trigger] self.open_regions().contains_key(p) implies {
                &&& !self.closed_files().contains_key(p)
                &&& self.open_regions()[p].wf()
                &&& owns_unsaved(p, self.open_regions()[p])
            } by {
                assert(old(self).open_regions().contains_key(p));
            }
        }
        true
    }

    /// A manager of a save with the given files, if they can be taken up.
    pub fn with_files(files: Vec<(RegionIndex, Vec<u8>)>) -> (manager: Option<RegionManager>)
        ensures
            manager is Some <==> acceptable(files@),
            manager matches Some(m) ==> {
                &&& m.wf()
                &&& m.open_regions() == Map::<Point, Region>::empty()
                &&& forall|index: RegionIndex| #[trigger] m.has_file(index) <==> lists(files@, index)
                &&& forall|i: int|
                    0 <= i < files@.len() ==> m.region_file((#[trigger] files@[i]).0) == files@[i].1@
            },
    {
        let mut manager: RegionManager = RegionManager::new();
        let mut rest: Vec<(RegionIndex, Vec<u8>)> = files;
        while rest.len() > 0
            invariant
                manager.wf(),
                manager.open_regions() == Map::<Point, Region>::empty(),
                rest@.len() <= files@.len(),
                rest@ == files@.take(rest@.len() as int),
                forall|index: RegionIndex| #[trigger]
                    manager.has_file(index) <==> exists|i: int|
                        rest@.len() <= i < files@.len() && (#[trigger] files@[i]).0 == index,
                forall|i: int|
                    rest@.len() <= i < files@.len() ==> manager.region_file((#[trigger] files@[i]).0)
                        == files@[i].1@,
                forall|i: int|
                    rest@.len() <= i < files@.len() ==> region_file_wf((#[trigger] files@[i]).1@),
                forall|i: int, j: int|
                    rest@.len() <= i < j < files@.len() ==> files@[i].0 != files@[j].0,
            decreases rest@.len(),
        {
            let ghost before = manager;
            let ghost n = rest@.len() - 1;
            let entry: (RegionIndex, Vec<u8>) = rest.pop().unwrap();
            assert(entry == files@[n]);
            assert(rest@ =~= files@.take(n));
            let accepted: bool = manager.add_file(entry.0, entry.1);
            if !accepted {
                proof {
                    if before.has_file(entry.0) {
                        let i = choose|i: int|
                            n + 1 <= i < files@.len() && (#[trigger] files@[i]).0 == entry.0;
                        assert(files@[n].0 == files@[i].0);
                    }
                }
                return None;
            }
            proof {
                assert forall|index: RegionIndex| #[trigger]
                    manager.has_file(index) <==> exists|i: int|
                        n <= i < files@.len() && (#[trigger] files@[i]).0 == index by {
                    if manager.has_file(index) {
                        if index == entry.0 {
                            assert(files@[n].0 == index);
                        } else {
                            assert(index.0 != entry.0.0);
                            assert(before.has_file(index));
                            let i = choose|i: int|
                                n + 1 <= i < files@.len() && (#[trigger] files@[i]).0 == index;
                            assert(n <= i < files@.len() && files@[i].0 == index);
                        }
                    }
                    if exists|i: int| n <= i < files@.len() && (#[trigger] files@[i]).0 == index {
                        let i = choose|i: int|
                            n <= i < files@.len() && (#[trigger] files@[i]).0 == index;
                        if i > n {
                            assert(n + 1 <= i < files@.len() && files@[i].0 == index);
                            assert(before.has_file(index));
                        }
                    }
                }
                assert forall|i: int| n <= i < files@.len() implies manager.region_file(
                    (#[trigger] files@[i]).0,
                ) == files@[i].1@ by {
                    if i > n {
                        assert(files@[n].0 != files@[i].0) by {
                            if files@[n].0 == files@[i].0 {
                                assert(n + 1 <= i < files@.len() && files@[i].0 == entry.0);
                                assert(before.has_file(entry.0));
                            }
                        }
                        assert(files@[i].0.0 != entry.0.0);
                        assert(before.region_file(files@[i].0) == files@[i].1@);
                    }
                }
                assert forall|i: int, j: int| n <= i < j < files@.len() implies files@[i].0
                    != files@[j].0 by {
                    if i == n && files@[i].0 == files@[j].0 {
                        assert(n + 1 <= j < files@.len() && files@[j].0 == entry.0);
                        assert(before.has_file(entry.0));
                    }
                }
            }
        }
        proof {
            assert forall|index: RegionIndex| #[trigger] manager.has_file(index) <==> lists(
                files@,
                index,
            ) by {
                if manager.has_file(index) {
                    let i = choose|i: int| 0 <= i < files@.len() && (#[trigger] files@[i]).0 == index;
                    assert(lists(files@, index));
                }
                if lists(files@, index) {
                    let i = choose|i: int| 0 <= i < files@.len() && (#[trigger] files@[i]).0 == index;
                    assert(0 <= i < files@.len() && files@[i].0 == index);
                }
            }
        }
        Some(manager)
    }

    /// Copies of the files of the save, open or not, each once.
    pub fn files(&self) -> (files: Vec<(RegionIndex, Vec<u8>)>)
        requires
            self.wf(),
        ensures
            acceptable(files@),
            forall|index: RegionIndex| #[trigger] lists(files@, index) <==> self.has_file(index),
            forall|i: int|
                0 <= i < files@.len() ==> (#[trigger] files@[i]).1@ == self.region_file(files@[i].0),
    {
        let open: Vec<Point> = self.regions.keys();
        let closed: Vec<Point> = self.files.keys();
        let mut files: Vec<(RegionIndex, Vec<u8>)> = Vec::new();
        let mut i: usize = 0;
        while i < open.len()
            invariant
                i <= open@.len(),
                self.wf(),
                open@.no_duplicates(),
                forall|p: Point| open@.contains(p) <==> self.open_regions().contains_key(p),
                files@.len() == i,
                forall|j: int|
                    0 <= j < i ==> (#[trigger] files@[j]).0 == RegionIndex(open@[j]) && files@[j].1@
                        == self.region_file(files@[j].0),
            decreases open@.len() - i,
        {
            assert(open@.contains(open@[i as int]));
            match self.regions.get(&open[i]) {
                Some(region) => {
                    files.push((RegionIndex(open[i]), region.to_bytes()));
                },
                None => {},
            }
            i += 1;
        }
        let mut k: usize = 0;
        while k < closed.len()
            invariant
                k <= closed@.len(),
                self.wf(),
                open@.no_duplicates(),
                closed@.no_duplicates(),
                forall|p: Point| open@.contains(p) <==> self.open_regions().contains_key(p),
                forall|p: Point| closed@.contains(p) <==> self.files@.contains_key(p),
                files@.len() == open@.len() + k,
                forall|j: int|
                    0 <= j < open@.len() ==> (#[trigger] files@[j]).0 == RegionIndex(open@[j]),
                forall|j: int|
                    0 <= j < k ==> (#[trigger] files@[open@.len() + j]).0 == RegionIndex(
                        closed@[j],
                    ),
                forall|j: int|
                    0 <= j < files@.len() ==> (#[trigger] files@[j]).1@ == self.region_file(
                        files@[j].0,
                    ),
            decreases closed@.len() - k,
        {
            assert(closed@.contains(closed@[k as int]));
            match self.files.get(&closed[k]) {
                Some(bytes) => {
                    let copy: Vec<u8> = bytes.clone();
                    assert(copy@ =~= bytes@);
                    assert(self.closed_files().contains_key(closed@[k as int]));
                    assert(!self.open_regions().contains_key(closed@[k as int]));
                    files.push((RegionIndex(closed[k]), copy));
                },
                None => {},
            }
            k += 1;
        }
        proof {
            assert forall|j: int| 0 <= j < files@.len() implies self.has_file(
                (#[trigger] files@[j]).0,
            ) by {
                if j < open@.len() {
                    assert(open@.contains(open@[j]));
                } else {
                    assert(files@[open@.len() + (j - open@.len())].0 == RegionIndex(
                        closed@[j - open@.len()],
                    ));
                    assert(closed@.contains(closed@[j - open@.len()]));
                    assert(self.closed_files().contains_key(closed@[j - open@.len()]));
                }
            }
            assert forall|j: int| 0 <= j < files@.len() implies region_file_wf(
                (#[trigger] files@[j]).1@,
            ) by {
                self.lemma_region_file_wf(files@[j].0);
            }
            assert forall|a: int, b: int| 0 <= a < b < files@.len() implies files@[a].0
                != files@[b].0 by {
                if b < open@.len() {
                    assert(open@[a] != open@[b]);
                } else if a >= open@.len() {
                    assert(files@[open@.len() + (a - open@.len())].0 == RegionIndex(
                        closed@[a - open@.len()],
                    ));
                    assert(files@[open@.len() + (b - open@.len())].0 == RegionIndex(
                        closed@[b - open@.len()],
                    ));
                    assert(closed@[a - open@.len()] != closed@[b - open@.len()]);
                } else {
                    assert(files@[open@.len() + (b - open@.len())].0 == RegionIndex(
                        closed@[b - open@.len()],
                    ));
                    assert(open@.contains(open@[a]));
                    assert(closed@.contains(closed@[b - open@.len()]));
                    assert(self.closed_files().contains_key(closed@[b - open@.len()]));
                }
            }
            assert forall|index: RegionIndex| #[trigger] lists(files@, index) <==> self.has_file(
                index,
            ) by {
                if lists(files@, index) {
                    let j = choose|j: int| 0 <= j < files@.len() && (#[trigger] files@[j]).0 == index;
                    assert(self.has_file(files@[j].0));
                }
                if self.open_regions().contains_key(index.0) {
                    assert(open@.contains(index.0));
                    let j = choose|j: int| 0 <= j < open@.len() && open@[j] == index.0;
                    assert(files@[j].0 == index);
                } else if self.closed_files().contains_key(index.0) {
                    assert(closed@.contains(index.0));
                    let j = choose|j: int| 0 <= j < closed@.len() && closed@[j] == index.0;
                    assert(files@[open@.len() + j].0 == index);
                }
            }
        }
        files
    }

    /// Gives the manager up and hands out the files of the save, open or not, each once.
    pub fn into_files(self) -> (files: Vec<(RegionIndex, Vec<u8>)>)
        requires
            self.wf(),
        ensures
            acceptable(files@),
            forall|index: RegionIndex| #[trigger] lists(files@, index) <==> self.has_file(index),
            forall|i: int|
                0 <= i < files@.len() ==> (#[trigger] files@[i]).1@ == self.region_file(files@[i].0),
    {
        let mut manager: RegionManager = self;
        let indices: Vec<RegionIndex> = manager.region_indices();
        let mut i: usize = 0;
        while i < indices.len()
            invariant
                i <= indices@.len(),
                manager.wf(),
                forall|index: RegionIndex| #[trigger]
                    manager.region_file(index) == self.region_file(index),
                forall|index: RegionIndex| #[trigger] manager.has_file(index) == self.has_file(index),
                forall|index: RegionIndex| #[trigger]
                    manager.is_open(index) ==> exists|j: int|
                        i <= j < indices@.len() && indices@[j] == index,
            decreases indices@.len() - i,
        {
            let ghost before = manager;
            manager.remove(&indices[i]);
            proof {
                assert forall|index: RegionIndex| #[trigger] manager.has_file(index) == self.has_file(
                    index,
                ) by {
                    assert(before.has_file(index) == self.has_file(index));
                }
                assert forall|index: RegionIndex| #[trigger] manager.is_open(index) implies exists|
                    j: int,
                | i + 1 <= j < indices@.len() && indices@[j] == index by {
                    assert(before.is_open(index));
                    let j = choose|j: int| i <= j < indices@.len() && indices@[j] == index;
                    assert(j != i);
                }
                assert forall|index: RegionIndex| #[trigger]
                    manager.region_file(index) == self.region_file(index) by {
                    assert(before.region_file(index) == self.region_file(index));
                }
            }
            i += 1;
        }
        let ghost closed = manager;
        proof {
            assert forall|p: Point| !closed.open_regions().contains_key(p) by {
                if closed.open_regions().contains_key(p) {
                    assert(closed.is_open(RegionIndex(p)));
                }
            }
        }
        let mut entries: Vec<(Point, Vec<u8>)> = manager.files.into_entries();
        let ghost all = entries@;
        let mut files: Vec<(RegionIndex, Vec<u8>)> = Vec::new();
        while entries.len() > 0
            invariant
                entries@ == all.take(entries@.len() as int),
                files@.len() + entries@.len() == all.len(),
                forall|j: int|
                    0 <= j < files@.len() ==> (#[trigger] files@[j]).0 == RegionIndex(
                        all[all.len() - 1 - j].0,
                    ) && files@[j].1 == all[all.len() - 1 - j].1,
            decreases entries@.len(),
        {
            let ghost n = entries@.len() - 1;
            let entry: (Point, Vec<u8>) = entries.pop().unwrap();
            assert(entry == all[n]);
            assert(entries@ =~= all.take(n));
            files.push((RegionIndex(entry.0), entry.1));
        }
        proof {
            assert forall|j: int| 0 <= j < files@.len() implies {
                &&& closed.closed_files().contains_key((#[trigger] files@[j]).0.0)
                &&& closed.closed_files()[files@[j].0.0] == files@[j].1@
            } by {
                lemma_entry_in_map(all, all.len() - 1 - j);
            }
            assert forall|j: int| 0 <= j < files@.len() implies region_file_wf(
                (#[trigger] files@[j]).1@,
            ) by {
                assert(closed.closed_files().contains_key(files@[j].0.0));
            }
            assert forall|a: int, b: int| 0 <= a < b < files@.len() implies files@[a].0
                != files@[b].0 by {
                assert(all[all.len() - 1 - b].0 != all[all.len() - 1 - a].0);
            }
            assert forall|index: RegionIndex| #[trigger] lists(files@, index) <==> self.has_file(
                index,
            ) by {
                assert(closed.has_file(index) == self.has_file(index));
                if lists(files@, index) {
                    let j = choose|j: int| 0 <= j < files@.len() && (#[trigger] files@[j]).0 == index;
                    assert(closed.closed_files().contains_key(files@[j].0.0));
                }
                if closed.has_file(index) {
                    assert(has_key(all, index.0));
                    let a = choose|a: int| 0 <= a < all.len() && #[trigger] all[a].0 == index.0;
                    let j = all.len() - 1 - a;
                    assert(files@[j].0 == index);
                }
            }
            assert forall|j: int| 0 <= j < files@.len() implies (#[trigger] files@[j]).1@
                == self.region_file(files@[j].0) by {
                assert(closed.closed_files().contains_key(files@[j].0.0));
                assert(closed.region_file(files@[j].0) == self.region_file(files@[j].0));
            }
        }
        files
    }
}

} // verus!
