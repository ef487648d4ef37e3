use vstd::bytes::*;
use vstd::prelude::*;
use vstd::slice::slice_subrange;

verus! {

/// Number of payload bytes held by one dynamic store record.
pub const DYN_DATA_SIZE: usize = 120;

/// Size in bytes of an encoded dynamic store record: one flag byte, the
/// little-endian id of the next record and the payload.
pub const DYN_RECORD_SIZE: usize = 129;

/// One fixed-size link of a chain of records that together hold a value of
/// arbitrary length.
pub struct DynamicStoreRecord {
    pub in_use: bool,
    pub has_next: bool,
    pub data: [u8; 120],
    pub next: u64,
}

/// The mathematical content of a [`DynamicStoreRecord`].
pub struct RecordView {
    pub in_use: bool,
    pub has_next: bool,
    pub next: u64,
    pub data: Seq<u8>,
}

impl View for DynamicStoreRecord {
    type V = RecordView;

    open spec fn view(&self) -> RecordView {
        RecordView { in_use: self.in_use, has_next: self.has_next, next: self.next, data: self.data@ }
    }
}

/// The flag byte of a record: bit 0 is `in_use`, bit 1 is `has_next`.
pub open spec fn spec_flags(in_use: bool, has_next: bool) -> u8 {
    ((if in_use { 1u8 } else { 0u8 }) + (if has_next { 2u8 } else { 0u8 })) as u8
}

/// The bytes a record is stored as.
pub open spec fn spec_dr_to_bytes(r: RecordView) -> Seq<u8> {
    seq![spec_flags(r.in_use, r.has_next)] + spec_u64_to_le_bytes(r.next) + r.data
}

/// The record that a run of stored bytes stands for.
pub open spec fn spec_dr_from_bytes(s: Seq<u8>) -> RecordView {
    RecordView {
        in_use: s[0] % 2 == 1,
        has_next: (s[0] / 2) % 2 == 1,
        next: spec_u64_from_le_bytes(s.subrange(1, 9)),
        data: s.subrange(9, 129),
    }
}

/// Decoding the bytes of an encoded record gives the record back.
pub proof fn lemma_dr_bytes_roundtrip(r: RecordView)
    requires
        r.data.len() == DYN_DATA_SIZE,
    ensures
        spec_dr_to_bytes(r).len() == DYN_RECORD_SIZE,
        spec_dr_from_bytes(spec_dr_to_bytes(r)) == r,
{
    lemma_auto_spec_u64_to_from_le_bytes();
    let s = spec_dr_to_bytes(r);
    assert(s.subrange(1, 9) =~= spec_u64_to_le_bytes(r.next));
    assert(s.subrange(9, 129) =~= r.data);
}

/// Encodes a record as the bytes it is stored as.
pub fn dr_to_bytes(dr: &DynamicStoreRecord) -> (bytes: Vec<u8>)
    ensures
        bytes@ == spec_dr_to_bytes(dr@),
        bytes@.len() == DYN_RECORD_SIZE,
{
    let mut flags: u8 = 0;
    if dr.in_use {
        flags = flags + 1;
    }
    if dr.has_next {
        flags = flags + 2;
    }
    let mut bytes: Vec<u8> = Vec::new();
    bytes.push(flags);
    let next_bytes = u64_to_le_bytes(dr.next);
    let mut i: usize = 0;
    while i < 8
        invariant
            0 <= i <= 8,
            next_bytes@ == spec_u64_to_le_bytes(dr.next),
            next_bytes@.len() == 8,
            bytes@ == seq![flags] + next_bytes@.take(i as int),
        decreases 8 - i,
    {
        bytes.push(next_bytes[i]);
        i = i + 1;
        assert(next_bytes@.take(i as int) =~= next_bytes@.take(i - 1).push(next_bytes@[i - 1]));
    }
    let mut j: usize = 0;
    while j < DYN_DATA_SIZE
        invariant
            0 <= j <= DYN_DATA_SIZE,
            bytes@ == seq![flags] + spec_u64_to_le_bytes(dr.next) + dr.data@.take(j as int),
        decreases DYN_DATA_SIZE - j,
    {
        bytes.push(dr.data[j]);
        j = j + 1;
        assert(dr.data@.take(j as int) =~= dr.data@.take(j - 1).push(dr.data@[j - 1]));
    }
    assert(next_bytes@.take(8) =~= next_bytes@);
    assert(dr.data@.take(120) =~= dr.data@);
    bytes
}

/// Decodes the bytes of a stored record.
pub fn dr_from_bytes(bytes: &[u8]) -> (dr: DynamicStoreRecord)
    requires
        bytes@.len() == DYN_RECORD_SIZE,
    ensures
        dr@ == spec_dr_from_bytes(bytes@),
{
    let flags = bytes[0];
    let mut data: [u8; 120] = [0u8; 120];
    let mut j: usize = 0;
    while j < DYN_DATA_SIZE
        invariant
            0 <= j <= DYN_DATA_SIZE,
            bytes@.len() == DYN_RECORD_SIZE,
            data@.len() == DYN_DATA_SIZE,
            forall|k: int| 0 <= k < j ==> data@[k] == bytes@[k + 9],
        decreases DYN_DATA_SIZE - j,
    {
        data[j] = bytes[j + 9];
        j = j + 1;
    }
    let next = u64_from_le_bytes(slice_subrange(bytes, 1, 9));
    assert(data@ =~= bytes@.subrange(9, 129));
    DynamicStoreRecord { in_use: flags % 2 == 1, has_next: (flags / 2) % 2 == 1, data, next }
}

} // verus!
