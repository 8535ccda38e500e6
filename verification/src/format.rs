//! What a region file is: a lookup table, and behind it the records of chunks in whole sectors.

use vstd::prelude::*;
use crate::codec::{lemma_padded_len, padded};
use crate::region::{LOOKUP_TABLE_SIZE, REGION_SIZE, SECTOR_SIZE, SerialError};

verus! {

/// A number that names one of the slots of the lookup table.
pub open spec fn is_slot(slot: int) -> bool {
    0 <= slot < REGION_SIZE
}

/// The first byte of a slot: the sector, counted from the end of the lookup table, at which the
/// chunk's record starts.
pub open spec fn entry_sector(file: Seq<u8>, slot: int) -> int {
    file[2 * slot] as int
}

/// The second byte of a slot: the number of sectors that the chunk's record takes. Zero means
/// that the file holds no record for the chunk.
pub open spec fn entry_count(file: Seq<u8>, slot: int) -> int {
    file[2 * slot + 1] as int
}

/// The file holds a record for the slot.
pub open spec fn has_record(file: Seq<u8>, slot: int) -> bool {
    entry_count(file, slot) != 0
}

/// The byte offset at which the slot's record starts.
pub open spec fn record_start(file: Seq<u8>, slot: int) -> int {
    LOOKUP_TABLE_SIZE + entry_sector(file, slot) * SECTOR_SIZE
}

/// The number of bytes reserved for the slot's record.
pub open spec fn record_len(file: Seq<u8>, slot: int) -> int {
    entry_count(file, slot) * SECTOR_SIZE
}

/// The bytes reserved for the slot's record.
pub open spec fn record(file: Seq<u8>, slot: int) -> Seq<u8> {
    file.subrange(record_start(file, slot), record_start(file, slot) + record_len(file, slot))
}

/// What a read of the slot finds: the record's bytes, or nothing where the slot is empty.
pub open spec fn stored(file: Seq<u8>, slot: int) -> Option<Seq<u8>> {
    if has_record(file, slot) {
        Some(record(file, slot))
    } else {
        None
    }
}

/// The number of sectors that follow the lookup table.
pub open spec fn sectors_in(file: Seq<u8>) -> int {
    (file.len() - LOOKUP_TABLE_SIZE) / (SECTOR_SIZE as int)
}

/// The records of two slots share no sector.
pub open spec fn records_apart(file: Seq<u8>, s: int, t: int) -> bool {
    ||| entry_sector(file, s) + entry_count(file, s) <= entry_sector(file, t)
    ||| entry_sector(file, t) + entry_count(file, t) <= entry_sector(file, s)
}

/// What holds of every region file: the lookup table is whole, whole sectors follow it, every
/// record lies inside the file, and no two records overlap.
pub open spec fn region_file_wf(file: Seq<u8>) -> bool {
    &&& file.len() >= LOOKUP_TABLE_SIZE
    &&& (file.len() - LOOKUP_TABLE_SIZE) % (SECTOR_SIZE as int) == 0
    &&& forall|s: int|
        is_slot(s) && #[trigger] has_record(file, s) ==> entry_sector(file, s) + entry_count(
            file,
            s,
        ) <= sectors_in(file)
    &&& forall|s: int, t: int|
        is_slot(s) && is_slot(t) && s != t && #[trigger] has_record(file, s) && #[trigger] has_record(
            file,
            t,
        ) ==> records_apart(file, s, t)
}

/// A file that was just made: a lookup table of empty slots and nothing behind it.
pub open spec fn empty_region_file() -> Seq<u8> {
    Seq::new(LOOKUP_TABLE_SIZE as nat, |i: int| 0u8)
}

/// The number of sectors that a payload of `len` bytes takes once it is padded.
pub open spec fn sectors_for(len: nat) -> int {
    len as int / (SECTOR_SIZE as int) + 1
}

/// The file with `data` written over the bytes from `at` on.
pub open spec fn overwritten(file: Seq<u8>, at: int, data: Seq<u8>) -> Seq<u8> {
    Seq::new(
        file.len(),
        |i: int|
            if at <= i < at + data.len() {
                data[i - at]
            } else {
                file[i]
            },
    )
}

/// The file with the slot's two bytes set.
pub open spec fn with_entry(file: Seq<u8>, slot: int, sector: u8, count: u8) -> Seq<u8> {
    file.update(2 * slot, sector).update(2 * slot + 1, count)
}

/// The file with `data` put behind its end and the slot pointed at it.
pub open spec fn appended(file: Seq<u8>, slot: int, data: Seq<u8>) -> Seq<u8> {
    with_entry(
        file + data,
        slot,
        sectors_in(file) as u8,
        (data.len() as int / (SECTOR_SIZE as int)) as u8,
    )
}

/// Why a write of `payload` for the slot is turned down, if it is.
pub open spec fn write_fault(file: Seq<u8>, slot: int, payload: Seq<u8>) -> Option<SerialError> {
    if has_record(file, slot) {
        if sectors_for(payload.len()) <= entry_count(file, slot) {
            None
        } else {
            Some(SerialError::RecordGrewPastAllocation)
        }
    } else if sectors_in(file) > 255 || sectors_for(payload.len()) > 255 {
        Some(SerialError::RegionFull)
    } else {
        None
    }
}

/// The file after a write of `payload` for the slot that is not turned down: a slot that has a
/// record keeps its place and its size, and the padded payload goes over the start of the
/// record; an empty slot gets the padded payload behind the end of the file.
pub open spec fn after_write(file: Seq<u8>, slot: int, payload: Seq<u8>) -> Seq<u8> {
    if has_record(file, slot) {
        overwritten(file, record_start(file, slot), padded(payload, SECTOR_SIZE as nat))
    } else {
        appended(file, slot, padded(payload, SECTOR_SIZE as nat))
    }
}

/// A new file is a region file, and all its slots are empty.
pub proof fn lemma_empty_region_file()
    ensures
        region_file_wf(empty_region_file()),
        forall|s: int| is_slot(s) ==> !has_record(empty_region_file(), s),
        sectors_in(empty_region_file()) == 0,
{
}

/// Appending a record to a region file, for a slot that had none, gives a region file in which
/// the slot holds the record and every other slot what it held before.
pub proof fn lemma_append_record(file: Seq<u8>, slot: int, data: Seq<u8>)
    requires
        region_file_wf(file),
        is_slot(slot),
        !has_record(file, slot),
        data.len() % (SECTOR_SIZE as nat) == 0,
        0 < data.len() / (SECTOR_SIZE as nat) <= 255,
        sectors_in(file) <= 255,
    ensures
        region_file_wf(appended(file, slot, data)),
        stored(appended(file, slot, data), slot) == Some(data),
        forall|t: int| is_slot(t) && t != slot
            ==> stored(appended(file, slot, data), t) == stored(file, t),
        appended(file, slot, data).len() == file.len() + data.len(),
{
    let after = appended(file, slot, data);
    let k = sectors_in(file);
    let c = data.len() as int / (SECTOR_SIZE as int);
    assert(file.len() == LOOKUP_TABLE_SIZE + k * SECTOR_SIZE);
    assert(data.len() == c * SECTOR_SIZE);
    assert(after.len() == file.len() + data.len());
    assert(sectors_in(after) == k + c);
    assert(entry_sector(after, slot) == k);
    assert(entry_count(after, slot) == c);
    assert forall|t: int| is_slot(t) && t != slot implies entry_sector(after, t) == entry_sector(
        file,
        t,
    ) && entry_count(after, t) == entry_count(file, t) by {}
    assert forall|t: int| is_slot(t) && t != slot && has_record(file, t) implies record(after, t)
        == record(file, t) by {
        assert(entry_sector(file, t) + entry_count(file, t) <= k);
        assert(record(after, t) =~= record(file, t));
    }
    assert(record(after, slot) =~= data);
    assert forall|s: int| is_slot(s) && #[trigger] has_record(after, s) implies entry_sector(after, s)
        + entry_count(after, s) <= sectors_in(after) by {
        if s != slot {
            assert(has_record(file, s));
        }
    }
    assert forall|s: int, t: int|
        is_slot(s) && is_slot(t) && s != t && #[trigger] has_record(after, s) && #[trigger] has_record(
            after,
            t,
        ) implies records_apart(after, s, t) by {
        if s != slot && t != slot {
            assert(has_record(file, s) && has_record(file, t));
            assert(records_apart(file, s, t));
        } else if s == slot {
            assert(has_record(file, t));
        } else {
            assert(has_record(file, s));
        }
    }
}

/// Writing over the start of a slot's record, inside the sectors reserved for it, gives a
/// region file with the same lookup table, in which the record starts with what was written
/// and every other slot holds what it held before.
pub proof fn lemma_overwrite_record(file: Seq<u8>, slot: int, data: Seq<u8>)
    requires
        region_file_wf(file),
        is_slot(slot),
        has_record(file, slot),
        data.len() <= record_len(file, slot),
    ensures
        region_file_wf(overwritten(file, record_start(file, slot), data)),
        overwritten(file, record_start(file, slot), data).len() == file.len(),
        overwritten(file, record_start(file, slot), data).subrange(0, LOOKUP_TABLE_SIZE as int)
            == file.subrange(0, LOOKUP_TABLE_SIZE as int),
        stored(overwritten(file, record_start(file, slot), data), slot) == Some(
            data + record(file, slot).subrange(data.len() as int, record_len(file, slot)),
        ),
        forall|t: int|
            is_slot(t) && t != slot ==> stored(overwritten(file, record_start(file, slot), data), t)
                == stored(file, t),
{
    let at = record_start(file, slot);
    let after = overwritten(file, at, data);
    assert(file.len() == LOOKUP_TABLE_SIZE + sectors_in(file) * SECTOR_SIZE);
    assert(entry_sector(file, slot) + entry_count(file, slot) <= sectors_in(file));
    assert forall|t: int| is_slot(t) implies entry_sector(after, t) == entry_sector(file, t)
        && entry_count(after, t) == entry_count(file, t) by {}
    assert(after.subrange(0, LOOKUP_TABLE_SIZE as int) =~= file.subrange(
        0,
        LOOKUP_TABLE_SIZE as int,
    ));
    assert(record(after, slot) =~= data + record(file, slot).subrange(
        data.len() as int,
        record_len(file, slot),
    ));
    assert forall|t: int| is_slot(t) && t != slot && has_record(file, t) implies record(after, t)
        == record(file, t) by {
        assert(records_apart(file, slot, t));
        assert(entry_sector(file, t) + entry_count(file, t) <= sectors_in(file));
        assert(record(after, t) =~= record(file, t));
    }
    assert forall|s: int| is_slot(s) && #[trigger] has_record(after, s) implies entry_sector(after, s)
        + entry_count(after, s) <= sectors_in(after) by {
        assert(has_record(file, s));
    }
    assert forall|s: int, t: int|
        is_slot(s) && is_slot(t) && s != t && #[trigger] has_record(after, s) && #[trigger] has_record(
            after,
            t,
        ) implies records_apart(after, s, t) by {
        assert(has_record(file, s) && has_record(file, t));
        assert(records_apart(file, s, t));
    }
}

/// A write that is not turned down leaves a region file, in which a read of the slot finds the
/// padded payload first, and behind it what a longer record had left; a read of any other slot
/// finds what it found before.
pub proof fn lemma_write_then_read(file: Seq<u8>, slot: int, payload: Seq<u8>)
    requires
        region_file_wf(file),
        is_slot(slot),
        write_fault(file, slot, payload) is None,
    ensures
        region_file_wf(after_write(file, slot, payload)),
        stored(after_write(file, slot, payload), slot) is Some,
        stored(after_write(file, slot, payload), slot).unwrap().len() >= padded(
            payload,
            SECTOR_SIZE as nat,
        ).len(),
        stored(after_write(file, slot, payload), slot).unwrap().subrange(
            0,
            padded(payload, SECTOR_SIZE as nat).len() as int,
        ) == padded(payload, SECTOR_SIZE as nat),
        !has_record(file, slot) ==> stored(after_write(file, slot, payload), slot) == Some(
            padded(payload, SECTOR_SIZE as nat),
        ),
        forall|t: int|
            is_slot(t) && t != slot ==> stored(after_write(file, slot, payload), t) == stored(file, t),
{
    let data = padded(payload, SECTOR_SIZE as nat);
    lemma_padded_len(payload.len(), SECTOR_SIZE as nat);
    assert(data.len() == sectors_for(payload.len()) * SECTOR_SIZE);
    if has_record(file, slot) {
        lemma_overwrite_record(file, slot, data);
        let rest = record(file, slot).subrange(data.len() as int, record_len(file, slot));
        assert((data + rest).subrange(0, data.len() as int) =~= data);
    } else {
        lemma_append_record(file, slot, data);
        assert(data.subrange(0, data.len() as int) =~= data);
    }
}

/// Whether bytes are a region file: whether the lookup table is whole, whole sectors follow
/// it, every record lies inside the file, and no two records overlap.
pub fn is_region_file(bytes: &Vec<u8>) -> (valid: bool)
    ensures
        valid == region_file_wf(bytes@),
{
    let len: usize = bytes.len();
    if len < 512 {
        return false;
    }
    if (len - 512) % SECTOR_SIZE != 0 {
        return false;
    }
    let sectors: usize = (len - 512) / SECTOR_SIZE;
    assert(sectors == sectors_in(bytes@));
    let mut s: usize = 0;
    while s < 256
        invariant
            s <= 256,
            len == bytes@.len(),
            len >= 512,
            sectors == sectors_in(bytes@),
            forall|a: int|
                0 <= a < s && #[trigger] has_record(bytes@, a) ==> entry_sector(bytes@, a)
                    + entry_count(bytes@, a) <= sectors_in(bytes@),
            forall|a: int, b: int|
                0 <= a < s && a < b < 256 && #[trigger] has_record(bytes@, a) && #[trigger] has_record(
                    bytes@,
                    b,
                ) ==> records_apart(bytes@, a, b),
        decreases 256 - s,
    {
        let sector: usize = bytes[2 * s] as usize;
        let count: usize = bytes[2 * s + 1] as usize;
        if count != 0 {
            assert(has_record(bytes@, s as int));
            if sector + count > sectors {
                assert(is_slot(s as int));
                return false;
            }
            let mut t: usize = s + 1;
            while t < 256
                invariant
                    s < t <= 256,
                    len == bytes@.len(),
                    len >= 512,
                    sector == entry_sector(bytes@, s as int),
                    count == entry_count(bytes@, s as int),
                    has_record(bytes@, s as int),
                    forall|b: int|
                        s < b < t && #[trigger] has_record(bytes@, b) ==> records_apart(
                            bytes@,
                            s as int,
                            b,
                        ),
                decreases 256 - t,
            {
                let other_sector: usize = bytes[2 * t] as usize;
                let other_count: usize = bytes[2 * t + 1] as usize;
                if other_count != 0 {
                    assert(has_record(bytes@, t as int));
                    if !(sector + count <= other_sector || other_sector + other_count <= sector) {
                        assert(is_slot(s as int) && is_slot(t as int));
                        assert(!records_apart(bytes@, s as int, t as int));
                        return false;
                    }
                }
                t += 1;
            }
        }
        s += 1;
    }
    proof {
        assert forall|a: int, b: int|
            is_slot(a) && is_slot(b) && a != b && #[trigger] has_record(bytes@, a)
                && #[trigger] has_record(
                bytes@,
                b,
            ) implies records_apart(bytes@, a, b) by {
            if a < b {
                assert(records_apart(bytes@, a, b));
            } else {
                assert(records_apart(bytes@, b, a));
            }
        }
    }
    true
}

} // verus!
