//! What holds of chunks that are written and read, saved and loaded.

use vstd::prelude::*;
use crate::chunk::{Chunk, ChunkIndex};
use crate::codec::{ChunkCodec, ChunkGenerator, padded, reads_back_what_it_wrote};
use crate::crowd::{dudes_on, footprint, lemma_saved_dudes_settle, settled};
use crate::dude::Dude;
use crate::format::{after_write, lemma_write_then_read, region_file_wf, stored, write_fault};
use crate::point::{Point, WorldPosition};
use crate::region::{
    lemma_region_local_roundtrip, lemma_slot_in_table, local_of, SECTOR_SIZE, SerialResult,
    slot_number,
};
use crate::window::window;
use crate::world::World;

verus! {

/// A chunk that is written to a region file and read back is the chunk that was written.
///
/// The codec has to find in a record what was saved. Then, after a write of a chunk and its
/// dudes that the file does not turn down, the bytes that a read of the chunk finds are bytes
/// in which the codec finds the chunk and its dudes.
pub proof fn lemma_written_chunk_reads_back<K: ChunkCodec>(
    codec: &K,
    file: Seq<u8>,
    index: ChunkIndex,
    chunk: Chunk,
    dudes: Seq<(WorldPosition, Dude)>,
)
    requires
        region_file_wf(file),
        reads_back_what_it_wrote(codec),
        codec.encoding(chunk, dudes) is Some,
        write_fault(file, slot_number(local_of(index)), codec.encoding(chunk, dudes).unwrap()) is None,
    ensures
        stored(
            after_write(file, slot_number(local_of(index)), codec.encoding(chunk, dudes).unwrap()),
            slot_number(local_of(index)),
        ) is Some,
        codec.decoding(
            stored(
                after_write(
                    file,
                    slot_number(local_of(index)),
                    codec.encoding(chunk, dudes).unwrap(),
                ),
                slot_number(local_of(index)),
            ).unwrap(),
        ) == Some((chunk, dudes)),
{
    let slot = slot_number(local_of(index));
    let encoded = codec.encoding(chunk, dudes).unwrap();
    lemma_region_local_roundtrip(index);
    lemma_slot_in_table(local_of(index));
    lemma_write_then_read(file, slot, encoded);
    let record = stored(after_write(file, slot, encoded), slot).unwrap();
    lemma_encoding_leads(encoded, record);
}

/// Bytes that start with a padded payload start with the payload.
pub proof fn lemma_encoding_leads(encoded: Seq<u8>, record: Seq<u8>)
    requires
        padded(encoded, SECTOR_SIZE as nat).is_prefix_of(record),
    ensures
        encoded.is_prefix_of(record),
{
    let data = padded(encoded, SECTOR_SIZE as nat);
    assert forall|i: int| 0 <= i < encoded.len() implies encoded[i] == record[i] by {
        assert(data[i] == encoded[i]);
    }
}

/// What `save` has saved of a chunk is what a world on the same save loads.
///
/// `before` is a world in which the chunk is loaded, and `saved` a world that `save` has made
/// of it and in which the chunk is not loaded any more. `fresh` is any world with the same
/// codec in which the chunk is not loaded and whose save holds for the chunk what the save of
/// `saved` holds, and `loaded` is what `load_chunk_from_region` makes of it. If the codec finds
/// in a record what was saved, the chunk is loaded, it is the chunk that was loaded in
/// `before`, and the dudes who stood on it in `before` have taken their places: each of them
/// stands where he stood, and everybody else where he stood in `fresh` and as he was. The
/// generator is left as it was.
pub proof fn lemma_saved_chunk_loads<K: ChunkCodec, G: ChunkGenerator>(
    before: World<K, G>,
    saved: World<K, G>,
    fresh: World<K, G>,
    loaded: World<K, G>,
    index: ChunkIndex,
    result: SerialResult<()>,
)
    requires
        before.is_loaded(index),
        before.saving(saved),
        !saved.is_loaded(index),
        reads_back_what_it_wrote(&before.codec_used()),
        fresh.codec_used() == before.codec_used(),
        fresh.terrain().stored_chunk(index) == saved.terrain().stored_chunk(index),
        fresh.loading(loaded, index, result),
    ensures
        result is Ok,
        loaded.is_loaded(index),
        loaded.resident()[index.0] == before.resident()[index.0],
        loaded.crowd() == settled(fresh.crowd(), dudes_on(before.crowd(), index)),
        loaded.generator_used() == fresh.generator_used(),
        forall|p: Point| #[trigger]
            loaded.crowd().contains_key(p) <==> fresh.crowd().contains_key(p) || (footprint(
                index,
            ).contains(p) && before.crowd().contains_key(p)),
        forall|p: Point|
            footprint(index).contains(p) && before.crowd().contains_key(p)
                ==> #[trigger] loaded.crowd()[p] == before.crowd()[p],
        forall|p: Point|
            fresh.crowd().contains_key(p) && !(footprint(index).contains(p)
                && before.crowd().contains_key(p)) ==> #[trigger] loaded.crowd()[p]
                == fresh.crowd()[p],
{
    lemma_saved_dudes_settle(fresh.crowd(), before.crowd(), index);
    assert(before.saved_in(saved, index));
    let encoded = before.payload_of(index).unwrap();
    let record = saved.terrain().stored_chunk(index).unwrap();
    lemma_encoding_leads(encoded, record);
    assert(before.codec_used().decoding(record) == Some(
        (before.resident()[index.0], dudes_on(before.crowd(), index)),
    ));
}

/// What `save` has saved is what a tick of a world on the same save loads.
///
/// `saved` is what `save` has made of `before`, and the chunk was loaded in `before` and is
/// not loaded in `saved`. `fresh` is a world with the same codec in which the chunk is not
/// loaded and whose save holds for the chunk what the save of `saved` holds, and `after` is
/// what `update_chunks` makes of it where all goes well. If the codec finds in a record what
/// was saved and the chunk lies in the window around the observer of `fresh`, the chunk is
/// loaded in `after`, and is what it was in `before`.
pub proof fn lemma_saved_window_loads<K: ChunkCodec, G: ChunkGenerator>(
    before: World<K, G>,
    saved: World<K, G>,
    fresh: World<K, G>,
    after: World<K, G>,
    index: ChunkIndex,
)
    requires
        before.is_loaded(index),
        before.saving(saved),
        !saved.is_loaded(index),
        reads_back_what_it_wrote(&before.codec_used()),
        fresh.codec_used() == before.codec_used(),
        !fresh.is_loaded(index),
        fresh.terrain().stored_chunk(index) == saved.terrain().stored_chunk(index),
        fresh.ticking(after, Ok(())),
        window(fresh.center()).contains(index.0),
    ensures
        after.is_loaded(index),
        after.resident()[index.0] == before.resident()[index.0],
{
    assert(before.saved_in(saved, index));
    let encoded = before.payload_of(index).unwrap();
    let record = saved.terrain().stored_chunk(index).unwrap();
    lemma_encoding_leads(encoded, record);
    assert(fresh.terrain().stored_chunk(index) == Some(record));
    assert(fresh.comes_from_save(after, index));
    assert(after.resident().dom().contains(index.0));
}

/// A tick goes well where no chunk has to leave and every record of the window holds a chunk.
///
/// `after` is what `update_chunks` makes of `start`. In `start` no loaded chunk lies outside
/// the window around the observer, and in every record that the save holds for a chunk of the
/// window the codec finds a chunk. Then the tick goes well. So it does on a new world with a
/// save that holds nothing.
pub proof fn lemma_tick_goes_well<K: ChunkCodec, G: ChunkGenerator>(
    start: World<K, G>,
    after: World<K, G>,
    result: SerialResult<()>,
)
    requires
        start.ticking(after, result),
        forall|index: ChunkIndex| !#[trigger] start.leaves(index),
        forall|index: ChunkIndex|
            window(start.center()).contains(index.0) && (
            #[trigger] start.terrain().stored_chunk(index)) is Some
                ==> start.codec_used().decoding(start.terrain().stored_chunk(index).unwrap()) is Some,
    ensures
        result is Ok,
{
    if let Err(e) = result {
        assert forall|index: ChunkIndex|
            window(start.center()).contains(index.0) implies !#[trigger] after.fails_to_load(
                index,
                e,
            ) by {
            assert(!start.leaves(index));
            assert(after.terrain().stored_chunk(index) == start.terrain().stored_chunk(index));
        }
        assert forall|index: ChunkIndex|
            !window(start.center()).contains(index.0) implies !after.is_loaded(index) by {
            if after.resident().contains_key(index.0) {
                assert(start.leaves(index));
            }
        }
    }
}

/// The generator is asked for a chunk once at most, as long as a world lives.
///
/// `after` is what `update_chunks` makes of `start`. The generator was asked for no chunk
/// twice when the tick is over. In the tick it was asked for chunks of the window that were
/// not loaded and that the save did not hold, and for no others; none of them is a chunk that
/// it was asked for before, for every such chunk is loaded or has a record in the save.
pub proof fn lemma_generator_is_asked_once<K: ChunkCodec, G: ChunkGenerator>(
    start: World<K, G>,
    after: World<K, G>,
    result: SerialResult<()>,
)
    requires
        start.wf(),
        after.wf(),
        start.ticking(after, result),
    ensures
        after.generated().no_duplicates(),
        start.generated().is_prefix_of(after.generated()),
        forall|p: Point| start.generated().contains(p) ==> !#[trigger] start.is_new(ChunkIndex(p)),
        forall|p: Point|
            after.generated().contains(p) && !start.generated().contains(p)
                ==> #[trigger] start.is_new(ChunkIndex(p)),
        result is Ok ==> forall|p: Point| #[trigger]
            start.is_new(ChunkIndex(p)) ==> after.generated().contains(p),
{
    assert forall|p: Point| start.generated().contains(p) implies !#[trigger] start.is_new(
        ChunkIndex(p),
    ) by {
        assert(start.resident().contains_key(p) || start.terrain().stored_chunk(ChunkIndex(p)) is Some);
    }
    assert forall|p: Point|
        after.generated().contains(p) && !start.generated().contains(p) implies #[trigger] start.is_new(
        ChunkIndex(p),
    ) by {
        assert(start.generated().contains(p) || start.is_new(ChunkIndex(p)));
    }
}

/// A second tick with the observer where it was changes nothing.
///
/// `first` is what `update_chunks` makes of `start` where all goes well, and `second` what it
/// makes of `first`. Then the second tick goes well too, and the chunks that are loaded, the
/// dudes and the bytes of every region file are in `second` what they are in `first`: nothing
/// was written.
pub proof fn lemma_second_tick_changes_nothing<K: ChunkCodec, G: ChunkGenerator>(
    start: World<K, G>,
    first: World<K, G>,
    second: World<K, G>,
    result: SerialResult<()>,
)
    requires
        start.ticking(first, Ok(())),
        first.ticking(second, result),
    ensures
        result is Ok,
        first.same_state(second),
        second.generator_used() == first.generator_used(),
{
    assert(first.center() == start.center());
}

/// After a chunk is loaded it is loaded, and one chunk more is loaded than before.
///
/// `after` is what `load_chunk_from_region` or `generate_chunk` makes of `before`, in which
/// the chunk is not loaded.
pub proof fn lemma_load_adds_one_chunk<K: ChunkCodec, G: ChunkGenerator>(
    before: World<K, G>,
    after: World<K, G>,
    index: ChunkIndex,
    result: SerialResult<()>,
)
    requires
        before.wf(),
        !before.is_loaded(index),
        result is Ok,
        before.loading(after, index, result) || before.generation(after, index),
    ensures
        after.is_loaded(index),
        after.resident().len() == before.resident().len() + 1,
        forall|other: ChunkIndex|
            other != index ==> after.is_loaded(other) == before.is_loaded(other),
{
    before.lemma_resident_finite();
    assert(after.resident().dom() =~= before.resident().dom().insert(index.0));
    assert forall|other: ChunkIndex| other != index implies after.is_loaded(other)
        == before.is_loaded(other) by {
        assert(other.0 != index.0);
    }
}

/// After a chunk is unloaded it is not loaded, and one chunk less is loaded than before.
///
/// `after` is what `unload_chunk` makes of `before`, in which the chunk is loaded.
pub proof fn lemma_unload_removes_one_chunk<K: ChunkCodec, G: ChunkGenerator>(
    before: World<K, G>,
    after: World<K, G>,
    index: ChunkIndex,
    result: SerialResult<()>,
)
    requires
        before.wf(),
        before.is_loaded(index),
        result is Ok,
        before.unloading(after, index, result),
    ensures
        !after.is_loaded(index),
        after.resident().len() == before.resident().len() - 1,
        forall|other: ChunkIndex|
            other != index ==> after.is_loaded(other) == before.is_loaded(other),
{
    before.lemma_resident_finite();
    assert(after.resident().dom() =~= before.resident().dom().remove(index.0));
    assert forall|other: ChunkIndex| other != index implies after.is_loaded(other)
        == before.is_loaded(other) by {
        assert(other.0 != index.0);
    }
}

} // verus!
