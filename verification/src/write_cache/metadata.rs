//! The metadata file: which blocks are present, and up to which sequence
//! number the file knows about writes.
//!
//! Layout, little-endian: magic (8), version u32, device size u64, block size
//! u64, number of blocks u64, entry count u64, one entry per present block
//! (index u32, state u8), highest sequence number u64, rotation sequence u64,
//! checksum u32 over everything before it.

use vstd::bytes::{
    lemma_auto_spec_u32_to_from_le_bytes, lemma_auto_spec_u64_to_from_le_bytes,
    spec_u32_from_le_bytes, spec_u32_to_le_bytes, spec_u64_from_le_bytes, spec_u64_to_le_bytes,
    u32_from_le_bytes, u32_to_le_bytes, u64_from_le_bytes, u64_to_le_bytes,
};
use vstd::prelude::*;
use vstd::slice::slice_subrange;
use vstd::string::StringExecFns;
use crate::checksum::crc32_iscsi_of;
use crate::text::{decimal, push_decimal};
use crate::write_cache::config::WriteCacheConfig;
use crate::write_cache::error::{CacheError, IoError, IoErrorKind};
use crate::write_cache::state_map::{
    count_state, present_entries, swapped, SparseBlockState, SparseStateMap,
};

verus! {

/// Version that is written: sparse state map with trailing sequence numbers.
pub const METADATA_VERSION: u32 = 5;

/// Oldest version that can be read.
pub const MIN_METADATA_VERSION: u32 = 4;

/// The bytes "GLIDECCH".
pub open spec fn metadata_magic() -> Seq<u8> {
    seq![0x47u8, 0x4c, 0x49, 0x44, 0x45, 0x43, 0x43, 0x48]
}

/// Metadata read back from a file.
pub struct LoadedMetadata {
    pub states: SparseStateMap,
    /// Entries that need an eventual flush.
    pub dirty_count: usize,
    pub max_sequence: u64,
    pub rotation_seq: u64,
}

/// The entries of a metadata file, in the order of the file.
pub open spec fn entries_bytes(entries: Seq<(usize, u8)>) -> Seq<u8>
    decreases entries.len(),
{
    if entries.len() == 0 {
        Seq::empty()
    } else {
        entries_bytes(entries.drop_last()) + spec_u32_to_le_bytes(entries.last().0 as u32).push(
            entries.last().1,
        )
    }
}

/// What precedes the checksum.
pub open spec fn metadata_body(
    device_size: u64,
    block_size: u64,
    states: Seq<u8>,
    max_sequence: u64,
    rotation_seq: u64,
) -> Seq<u8> {
    let entries = present_entries(states, states.len());
    metadata_magic() + spec_u32_to_le_bytes(METADATA_VERSION) + spec_u64_to_le_bytes(device_size)
        + spec_u64_to_le_bytes(block_size) + spec_u64_to_le_bytes(states.len() as u64)
        + spec_u64_to_le_bytes(entries.len() as u64) + entries_bytes(entries)
        + spec_u64_to_le_bytes(max_sequence) + spec_u64_to_le_bytes(rotation_seq)
}

/// The metadata file.
pub open spec fn metadata_bytes(
    device_size: u64,
    block_size: u64,
    states: Seq<u8>,
    max_sequence: u64,
    rotation_seq: u64,
) -> Seq<u8> {
    let body = metadata_body(device_size, block_size, states, max_sequence, rotation_seq);
    body + spec_u32_to_le_bytes(crc32_iscsi_of(body))
}

/// The 32-bit number at byte `i`.
pub open spec fn le32_at(file: Seq<u8>, i: int) -> u32 {
    spec_u32_from_le_bytes(file.subrange(i, i + 4))
}

/// The 64-bit number at byte `i`.
pub open spec fn le64_at(file: Seq<u8>, i: int) -> u64 {
    spec_u64_from_le_bytes(file.subrange(i, i + 8))
}

/// What reading a metadata file comes to.
pub enum MetadataVerdict {
    /// The file ends too early.
    Short,
    /// The file is of another device, or damaged.
    Invalid,
    /// The file has a version that is no longer read.
    OldVersion,
    /// The file can be used.
    Good,
}

/// Where the checksum of a file starts.
pub open spec fn body_len(file: Seq<u8>) -> int {
    44 + 5 * (le64_at(file, 36) as int) + 16
}

/// What reading `file` comes to for a device of the given block size and size.
/// A device may have grown since the file was written, never shrunk.
pub open spec fn metadata_verdict(
    file: Seq<u8>,
    block_size: u64,
    device_size: u64,
) -> MetadataVerdict {
    if file.len() < 36 {
        MetadataVerdict::Short
    } else if file.subrange(0, 8) != metadata_magic() || le64_at(file, 20) != block_size
        || device_size < le64_at(file, 12) {
        MetadataVerdict::Invalid
    } else if le32_at(file, 8) < MIN_METADATA_VERSION {
        MetadataVerdict::OldVersion
    } else if file.len() < 44 || file.len() < body_len(file) {
        MetadataVerdict::Short
    } else if file.len() < body_len(file) + 4 || le32_at(file, body_len(file)) != crc32_iscsi_of(
        file.take(body_len(file)),
    ) {
        MetadataVerdict::Invalid
    } else {
        MetadataVerdict::Good
    }
}

/// Entry `i` of a file: block index and state.
pub open spec fn entry_at(file: Seq<u8>, i: int) -> (u32, u8) {
    (le32_at(file, 44 + 5 * i), file[44 + 5 * i + 4])
}

/// The states after one entry was applied. An entry beyond the device is
/// skipped, and a block keeps the state of its first entry.
pub open spec fn entry_applied(states: Seq<u8>, entry: (u32, u8)) -> Seq<u8> {
    let idx = entry.0 as int;
    if idx >= states.len() {
        states
    } else {
        let claimed = swapped(
            states,
            idx,
            SparseBlockState::NOT_PRESENT,
            SparseBlockState::CLEAN,
        );
        if entry.1 != SparseBlockState::CLEAN {
            swapped(claimed, idx, SparseBlockState::CLEAN, entry.1)
        } else {
            claimed
        }
    }
}

/// The states after the first `n` entries of a file.
pub open spec fn entries_applied(file: Seq<u8>, num_blocks: nat, n: nat) -> Seq<u8>
    decreases n,
{
    if n == 0 {
        Seq::new(num_blocks, |i: int| SparseBlockState::NOT_PRESENT)
    } else {
        entry_applied(
            entries_applied(file, num_blocks, (n - 1) as nat),
            entry_at(file, n - 1),
        )
    }
}

/// Whether an entry stands for a block of the device that has to be flushed.
pub open spec fn needs_flush(entry: (u32, u8), num_blocks: nat) -> bool {
    entry.0 < num_blocks && (entry.1 == SparseBlockState::DIRTY || entry.1
        == SparseBlockState::SYNCING)
}

/// How many of the first `n` entries have to be flushed.
pub open spec fn entries_to_flush(file: Seq<u8>, num_blocks: nat, n: nat) -> nat
    decreases n,
{
    if n == 0 {
        0
    } else {
        entries_to_flush(file, num_blocks, (n - 1) as nat) + if needs_flush(
            entry_at(file, n - 1),
            num_blocks,
        ) {
            1nat
        } else {
            0nat
        }
    }
}

/// Encodes the metadata file.
pub fn encode_metadata(
    device_size: u64,
    block_size: u64,
    states: &SparseStateMap,
    max_sequence: u64,
    rotation_seq: u64,
) -> (file: Vec<u8>)
    requires
        states.wf(),
    ensures
        file@ == metadata_bytes(device_size, block_size, states@, max_sequence, rotation_seq),
{
    let mut file: Vec<u8> = vec![0x47u8, 0x4c, 0x49, 0x44, 0x45, 0x43, 0x43, 0x48];
    assert(file@ =~= metadata_magic());
    let mut field: Vec<u8> = u32_to_le_bytes(METADATA_VERSION);
    file.append(&mut field);
    let mut field: Vec<u8> = u64_to_le_bytes(device_size);
    file.append(&mut field);
    let mut field: Vec<u8> = u64_to_le_bytes(block_size);
    file.append(&mut field);
    let mut field: Vec<u8> = u64_to_le_bytes(states.len() as u64);
    file.append(&mut field);
    let entries: Vec<(usize, u8)> = states.iter_present();
    let mut field: Vec<u8> = u64_to_le_bytes(entries.len() as u64);
    file.append(&mut field);
    let ghost header = file@;
    let mut i: usize = 0;
    while i < entries.len()
        invariant
            i <= entries@.len(),
            file@ == header + entries_bytes(entries@.take(i as int)),
        decreases entries@.len() - i,
    {
        let (idx, state) = entries[i];
        let mut field: Vec<u8> = u32_to_le_bytes(idx as u32);
        file.append(&mut field);
        file.push(state);
        proof {
            let upto = entries@.take(i + 1);
            assert(upto.drop_last() =~= entries@.take(i as int));
            assert(file@ =~= header + entries_bytes(upto));
        }
        i = i + 1;
    }
    assert(entries@.take(i as int) =~= entries@);
    let mut field: Vec<u8> = u64_to_le_bytes(max_sequence);
    file.append(&mut field);
    let mut field: Vec<u8> = u64_to_le_bytes(rotation_seq);
    file.append(&mut field);
    assert(file@ =~= metadata_body(
        device_size,
        block_size,
        states@,
        max_sequence,
        rotation_seq,
    ));
    let crc: u32 = crc_fast::crc32_iscsi(file.as_slice());
    let mut field: Vec<u8> = u32_to_le_bytes(crc);
    file.append(&mut field);
    file
}

fn read_u32(file: &Vec<u8>, i: usize) -> (n: u32)
    requires
        i + 4 <= file@.len(),
    ensures
        n == le32_at(file@, i as int),
{
    let _len: usize = file.len();
    u32_from_le_bytes(slice_subrange(file.as_slice(), i, i + 4))
}

fn read_u64(file: &Vec<u8>, i: usize) -> (n: u64)
    requires
        i + 8 <= file@.len(),
    ensures
        n == le64_at(file@, i as int),
{
    let _len: usize = file.len();
    u64_from_le_bytes(slice_subrange(file.as_slice(), i, i + 8))
}

fn has_magic(file: &Vec<u8>) -> (ok: bool)
    requires
        file@.len() >= 8,
    ensures
        ok == (file@.subrange(0, 8) == metadata_magic()),
{
    let ok: bool = file[0] == 0x47 && file[1] == 0x4c && file[2] == 0x49 && file[3] == 0x44
        && file[4] == 0x45 && file[5] == 0x43 && file[6] == 0x43 && file[7] == 0x48;
    proof {
        let head = file@.subrange(0, 8);
        if ok {
            assert(head =~= metadata_magic());
        } else {
            assert(head[0] == file@[0] && head[1] == file@[1] && head[2] == file@[2] && head[3]
                == file@[3] && head[4] == file@[4] && head[5] == file@[5] && head[6] == file@[6]
                && head[7] == file@[7]);
        }
    }
    ok
}

/// The text of an error for a file that ends too early.
pub open spec fn short_file_text() -> Seq<char> {
    "failed to fill whole buffer"@
}

/// The text of an error for a version that is no longer read.
pub open spec fn old_version_text(version: u32) -> Seq<char> {
    "unsupported metadata version "@ + decimal(version as int) + " (minimum 4)"@
}

fn short_file() -> (e: CacheError)
    ensures
        is_short_file(e),
{
    CacheError::Io(
        IoError {
            kind: IoErrorKind::UnexpectedEof,
            message: String::from_str("failed to fill whole buffer"),
        },
    )
}

/// The error for a file that ends too early.
pub open spec fn is_short_file(e: CacheError) -> bool {
    e matches CacheError::Io(io) && io.kind == IoErrorKind::UnexpectedEof && io.message@
        == short_file_text()
}

/// The error for a version that is no longer read.
pub open spec fn is_old_version(e: CacheError, version: u32) -> bool {
    e matches CacheError::Io(io) && io.kind == IoErrorKind::InvalidData && io.message@
        == old_version_text(version)
}

fn old_version(version: u32) -> (e: CacheError)
    ensures
        is_old_version(e, version),
{
    let mut message = String::from_str("unsupported metadata version ");
    push_decimal(&mut message, version as u64);
    message.append(" (minimum 4)");
    CacheError::Io(IoError { kind: IoErrorKind::InvalidData, message })
}

/// Load block states from the metadata file, if there is one.
pub fn load_metadata(config: &WriteCacheConfig, file: Option<&Vec<u8>>) -> (result: Result<
    LoadedMetadata,
    CacheError,
>)
    requires
        config.block_size > 0,
        config.spec_num_blocks() <= usize::MAX,
    ensures
        match file {
            None => result matches Ok(loaded) && loaded.states.wf() && loaded.states@ == Seq::new(
                config.spec_num_blocks() as nat,
                |i: int| SparseBlockState::NOT_PRESENT,
            ) && loaded.dirty_count == 0 && loaded.max_sequence == 0 && loaded.rotation_seq == 0,
            Some(bytes) => match metadata_verdict(
                bytes@,
                config.block_size as u64,
                config.device_size,
            ) {
                MetadataVerdict::Short => result matches Err(e) && is_short_file(e),
                MetadataVerdict::Invalid => result matches Err(e) && e
                    == CacheError::InvalidMetadata,
                MetadataVerdict::OldVersion => result matches Err(e) && is_old_version(
                    e,
                    le32_at(bytes@, 8),
                ),
                MetadataVerdict::Good => result matches Ok(loaded) && loaded_from(
                    loaded,
                    bytes@,
                    config.spec_num_blocks() as nat,
                ),
            },
        },
        result matches Ok(loaded) ==> loaded.states@.len() == config.spec_num_blocks()
            && loaded.dirty_count <= usize::MAX / 5,
{
    let num_blocks: usize = config.num_blocks();
    let mut states = SparseStateMap::new(num_blocks);
    let file: &Vec<u8> = match file {
        None => {
            return Ok(
                LoadedMetadata { states, dirty_count: 0, max_sequence: 0, rotation_seq: 0 },
            );
        },
        Some(file) => file,
    };
    let len: usize = file.len();
    if len < 36 {
        return Err(short_file());
    }
    if !has_magic(file) {
        return Err(CacheError::invalid_metadata());
    }
    let version: u32 = read_u32(file, 8);
    let device_size: u64 = read_u64(file, 12);
    let block_size: u64 = read_u64(file, 20);
    if block_size != config.block_size as u64 {
        return Err(CacheError::invalid_metadata());
    }
    if config.device_size < device_size {
        return Err(CacheError::invalid_metadata());
    }
    if version < MIN_METADATA_VERSION {
        return Err(old_version(version));
    }
    if len < 44 {
        return Err(short_file());
    }
    let count: u64 = read_u64(file, 36);
    if count > ((len - 44) / 5) as u64 {
        return Err(short_file());
    }
    let entry_count: usize = count as usize;
    let mut dirty_count: usize = 0;
    let mut i: usize = 0;
    while i < entry_count
        invariant
            i <= entry_count,
            len == file@.len(),
            44 + 5 * entry_count <= len,
            dirty_count <= i,
            states.wf(),
            states@.len() == num_blocks,
            states@ == entries_applied(file@, num_blocks as nat, i as nat),
            dirty_count == entries_to_flush(file@, num_blocks as nat, i as nat),
        decreases entry_count - i,
    {
        let at: usize = 44 + 5 * i;
        let idx: u32 = read_u32(file, at);
        let state: u8 = file[at + 4];
        assert(entry_at(file@, i as int) == (idx, state));
        if (idx as u64) < num_blocks as u64 {
            if state == SparseBlockState::DIRTY || state == SparseBlockState::SYNCING {
                dirty_count = dirty_count + 1;
            }
            states.set_present(idx as usize);
            if state != SparseBlockState::CLEAN {
                let _ = states.cas(idx as usize, SparseBlockState::CLEAN, state);
            }
        }
        i = i + 1;
    }
    let tail: usize = 44 + 5 * entry_count;
    if len - tail < 16 {
        return Err(short_file());
    }
    let max_sequence: u64 = read_u64(file, tail);
    let rotation_seq: u64 = read_u64(file, tail + 8);
    if len - tail < 20 {
        return Err(CacheError::invalid_metadata());
    }
    let computed: u32 = crc_fast::crc32_iscsi(slice_subrange(file.as_slice(), 0, tail + 16));
    assert(file@.subrange(0, tail + 16) =~= file@.take(tail + 16));
    if read_u32(file, tail + 16) != computed {
        return Err(CacheError::invalid_metadata());
    }
    Ok(LoadedMetadata { states, dirty_count, max_sequence, rotation_seq })
}

/// What a usable file says.
pub open spec fn loaded_from(loaded: LoadedMetadata, file: Seq<u8>, num_blocks: nat) -> bool {
    let count = le64_at(file, 36) as nat;
    &&& loaded.states.wf()
    &&& loaded.states@ == entries_applied(file, num_blocks, count)
    &&& loaded.dirty_count == entries_to_flush(file, num_blocks, count)
    &&& loaded.max_sequence == le64_at(file, body_len(file) - 16)
    &&& loaded.rotation_seq == le64_at(file, body_len(file) - 8)
}

proof fn lemma_entries_layout(entries: Seq<(usize, u8)>, i: int)
    requires
        0 <= i < entries.len(),
    ensures
        entries_bytes(entries).len() == 5 * entries.len(),
        entries_bytes(entries).subrange(5 * i, 5 * i + 4) == spec_u32_to_le_bytes(
            entries[i].0 as u32,
        ),
        entries_bytes(entries)[5 * i + 4] == entries[i].1,
    decreases entries.len(),
{
    lemma_auto_spec_u32_to_from_le_bytes();
    let before = entries.drop_last();
    lemma_entries_len(before);
    let last = spec_u32_to_le_bytes(entries.last().0 as u32);
    if i == entries.len() - 1 {
        assert(entries_bytes(entries).subrange(5 * i, 5 * i + 4) =~= last);
    } else {
        lemma_entries_layout(before, i);
        assert(entries_bytes(entries).subrange(5 * i, 5 * i + 4) =~= entries_bytes(
            before,
        ).subrange(5 * i, 5 * i + 4));
    }
}

proof fn lemma_entries_len(entries: Seq<(usize, u8)>)
    ensures
        entries_bytes(entries).len() == 5 * entries.len(),
    decreases entries.len(),
{
    lemma_auto_spec_u32_to_from_le_bytes();
    if entries.len() > 0 {
        lemma_entries_len(entries.drop_last());
    }
}

proof fn lemma_present_entries(states: Seq<u8>, n: nat)
    requires
        n <= states.len(),
    ensures
        present_entries(states, n).len() <= n,
    decreases n,
{
    if n > 0 {
        lemma_present_entries(states, (n - 1) as nat);
    }
}

/// The first `n` states, and `NOT_PRESENT` from there on.
spec fn padded(states: Seq<u8>, n: int, num_blocks: nat) -> Seq<u8> {
    Seq::new(
        num_blocks,
        |i: int|
            if i < n {
                states[i]
            } else {
                SparseBlockState::NOT_PRESENT
            },
    )
}

/// Applying the entries of the first `n` blocks gives their states back.
proof fn lemma_entries_give_states(file: Seq<u8>, states: Seq<u8>, n: nat, num_blocks: nat)
    requires
        n <= states.len() <= num_blocks,
        states.len() <= u32::MAX,
        forall|i: int|
            0 <= i < present_entries(states, n).len() ==> #[trigger] entry_at(file, i) == (
                present_entries(states, n)[i].0 as u32,
                present_entries(states, n)[i].1,
            ),
    ensures
        entries_applied(file, num_blocks, present_entries(states, n).len()) == padded(
            states,
            n as int,
            num_blocks,
        ),
        entries_to_flush(file, num_blocks, present_entries(states, n).len()) == count_state(
            states.take(n as int),
            SparseBlockState::DIRTY,
        ) + count_state(states.take(n as int), SparseBlockState::SYNCING),
    decreases n,
{
    if n == 0 {
        assert(entries_applied(file, num_blocks, 0) =~= padded(states, 0, num_blocks));
    } else {
        let m = (n - 1) as nat;
        let before = present_entries(states, m);
        let all = present_entries(states, n);
        assert(states.take(n as int).drop_last() =~= states.take(m as int));
        assert forall|i: int| 0 <= i < before.len() implies #[trigger] entry_at(file, i) == (
            before[i].0 as u32,
            before[i].1,
        ) by {
            assert(all[i] == before[i]);
        }
        lemma_entries_give_states(file, states, m, num_blocks);
        let applied = padded(states, m as int, num_blocks);
        if states[m as int] != SparseBlockState::NOT_PRESENT {
            assert(all.last() == (m as usize, states[m as int]));
            assert(entry_at(file, all.len() - 1) == (m as u32, states[m as int]));
            assert(entry_applied(applied, entry_at(file, all.len() - 1)) =~= padded(
                states,
                n as int,
                num_blocks,
            ));
        } else {
            assert(applied =~= padded(states, n as int, num_blocks));
        }
    }
}

/// Reading back what was written: a metadata file gives the states, the
/// sequence numbers and the number of blocks to flush that it was made of, also
/// for a device that has grown since.
pub proof fn law_metadata_round_trip(
    device_size: u64,
    block_size: u64,
    states: Seq<u8>,
    max_sequence: u64,
    rotation_seq: u64,
    new_device_size: u64,
    num_blocks: nat,
)
    requires
        states.len() <= u32::MAX,
        device_size <= new_device_size,
        states.len() <= num_blocks,
    ensures
        ({
            let file = metadata_bytes(
                device_size,
                block_size,
                states,
                max_sequence,
                rotation_seq,
            );
            let count = le64_at(file, 36) as nat;
            &&& metadata_verdict(file, block_size, new_device_size) == MetadataVerdict::Good
            &&& entries_applied(file, num_blocks, count) == states + Seq::new(
                (num_blocks - states.len()) as nat,
                |i: int| SparseBlockState::NOT_PRESENT,
            )
            &&& entries_to_flush(file, num_blocks, count) == count_state(
                states,
                SparseBlockState::DIRTY,
            ) + count_state(states, SparseBlockState::SYNCING)
            &&& le64_at(file, body_len(file) - 16) == max_sequence
            &&& le64_at(file, body_len(file) - 8) == rotation_seq
        }),
{
    lemma_auto_spec_u32_to_from_le_bytes();
    lemma_auto_spec_u64_to_from_le_bytes();
    let entries = present_entries(states, states.len());
    lemma_present_entries(states, states.len());
    lemma_entries_len(entries);
    let body = metadata_body(device_size, block_size, states, max_sequence, rotation_seq);
    let file = metadata_bytes(device_size, block_size, states, max_sequence, rotation_seq);
    let k = entries.len() as int;
    assert(body.len() == 60 + 5 * k);
    assert(file.subrange(0, 8) =~= metadata_magic());
    assert(file.subrange(8, 12) =~= spec_u32_to_le_bytes(METADATA_VERSION));
    assert(file.subrange(12, 20) =~= spec_u64_to_le_bytes(device_size));
    assert(file.subrange(20, 28) =~= spec_u64_to_le_bytes(block_size));
    assert(file.subrange(36, 44) =~= spec_u64_to_le_bytes(entries.len() as u64));
    assert(le64_at(file, 36) == k);
    assert(body_len(file) == 60 + 5 * k);
    assert(file.subrange(44 + 5 * k, 52 + 5 * k) =~= spec_u64_to_le_bytes(max_sequence));
    assert(file.subrange(52 + 5 * k, 60 + 5 * k) =~= spec_u64_to_le_bytes(rotation_seq));
    assert(file.subrange(60 + 5 * k, 64 + 5 * k) =~= spec_u32_to_le_bytes(crc32_iscsi_of(body)));
    assert(file.take(60 + 5 * k) =~= body);
    assert forall|i: int| 0 <= i < k implies #[trigger] entry_at(file, i) == (
        entries[i].0 as u32,
        entries[i].1,
    ) by {
        lemma_entries_layout(entries, i);
        assert(file.subrange(44 + 5 * i, 44 + 5 * i + 4) =~= entries_bytes(entries).subrange(
            5 * i,
            5 * i + 4,
        ));
        assert(file[44 + 5 * i + 4] == entries_bytes(entries)[5 * i + 4]);
    }
    lemma_entries_give_states(file, states, states.len(), num_blocks);
    assert(states.take(states.len() as int) =~= states);
    assert(padded(states, states.len() as int, num_blocks) =~= states + Seq::new(
        (num_blocks - states.len()) as nat,
        |i: int| SparseBlockState::NOT_PRESENT,
    ));
}

/// What is loaded from a file that was stored is what was stored: the state of every block, the
/// sequence numbers, and how many blocks have to be flushed. The device may have grown; its new
/// blocks are absent.
pub proof fn law_metadata_loads_back(
    device_size: u64,
    map: SparseStateMap,
    max_sequence: u64,
    rotation_seq: u64,
    file: Vec<u8>,
    config: WriteCacheConfig,
    result: Result<LoadedMetadata, CacheError>,
)
    requires
        call_ensures(
            encode_metadata,
            (device_size, config.block_size as u64, &map, max_sequence, rotation_seq),
            file,
        ),
        call_ensures(load_metadata, (&config, Some(&file)), result),
        map@.len() <= u32::MAX,
        device_size <= config.device_size,
        map@.len() <= config.spec_num_blocks(),
    ensures
        result is Ok,
        ({
            let loaded = result->Ok_0;
            &&& loaded.states@.len() == config.spec_num_blocks()
            &&& forall|b: int| 0 <= b < map@.len() ==> #[trigger] loaded.states@[b] == map@[b]
            &&& forall|b: int|
                map@.len() <= b < config.spec_num_blocks() ==> #[trigger] loaded.states@[b] == 0
            &&& loaded.max_sequence == max_sequence
            &&& loaded.rotation_seq == rotation_seq
            &&& loaded.dirty_count == map@.filter(|s: u8| s == 2 || s == 3).len()
        }),
{
    law_metadata_round_trip(
        device_size,
        config.block_size as u64,
        map@,
        max_sequence,
        rotation_seq,
        config.device_size,
        config.spec_num_blocks() as nat,
    );
    lemma_unflushed_count(map@);
}

proof fn lemma_unflushed_count(states: Seq<u8>)
    ensures
        count_state(states, SparseBlockState::DIRTY) + count_state(
            states,
            SparseBlockState::SYNCING,
        ) == states.filter(|s: u8| s == 2 || s == 3).len(),
    decreases states.len(),
{
    reveal(Seq::filter);
    if states.len() > 0 {
        lemma_unflushed_count(states.drop_last());
    }
}

/// A file is loaded only if it is whole and of this device: it starts with the magic bytes, has a
/// version from 4 on, the block size of the device and no larger size, room for its entries, and
/// the checksum of all bytes before it. Everything else is refused with the error that it calls
/// for.
pub proof fn law_damaged_metadata_is_refused(
    config: WriteCacheConfig,
    file: Vec<u8>,
    result: Result<LoadedMetadata, CacheError>,
)
    requires
        call_ensures(load_metadata, (&config, Some(&file)), result),
    ensures
        ({
            let f = file@;
            let count = spec_u64_from_le_bytes(f.subrange(36, 44)) as int;
            let n = 60 + 5 * count;
            let of_device = f.subrange(0, 8) == seq![
                0x47u8,
                0x4c,
                0x49,
                0x44,
                0x45,
                0x43,
                0x43,
                0x48,
            ] && spec_u64_from_le_bytes(f.subrange(20, 28)) == config.block_size
                && spec_u64_from_le_bytes(f.subrange(12, 20)) <= config.device_size;
            let old = spec_u32_from_le_bytes(f.subrange(8, 12)) < 4;
            let intact = f.len() >= n + 4 && spec_u32_from_le_bytes(f.subrange(n, n + 4))
                == crc32_iscsi_of(f.take(n));
            &&& result is Ok <==> f.len() >= 44 && of_device && !old && intact
            &&& f.len() < 36 ==> result->Err_0 is Io && result->Err_0->Io_0.kind
                == IoErrorKind::UnexpectedEof
            &&& f.len() >= 36 && !of_device ==> result->Err_0 is InvalidMetadata
            &&& f.len() >= 36 && of_device && old ==> result->Err_0 is Io
                && result->Err_0->Io_0.kind == IoErrorKind::InvalidData
            &&& f.len() >= n && f.len() >= 44 && of_device && !old && !intact
                ==> result->Err_0 is InvalidMetadata
        }),
{
    assert(metadata_magic() =~= seq![0x47u8, 0x4c, 0x49, 0x44, 0x45, 0x43, 0x43, 0x48]);
}

/// What a file says of a block, whoever wrote it: the state that its entry gives, where it has one
/// entry, and that it is absent, where it has none. Entries beyond the device are passed over.
pub proof fn law_entries_give_states(file: Seq<u8>, num_blocks: nat, n: nat, b: int)
    requires
        0 <= b < num_blocks,
    ensures
        entries_applied(file, num_blocks, n).len() == num_blocks,
        (forall|i: int| 0 <= i < n ==> (#[trigger] entry_at(file, i)).0 != b) ==> entries_applied(
            file,
            num_blocks,
            n,
        )[b] == 0,
        forall|i: int|
            0 <= i < n && (#[trigger] entry_at(file, i)).0 == b && (forall|j: int|
                0 <= j < n && j != i ==> (#[trigger] entry_at(file, j)).0 != b) ==> entries_applied(
                file,
                num_blocks,
                n,
            )[b] == entry_at(file, i).1,
    decreases n,
{
    if n > 0 {
        let m = (n - 1) as nat;
        law_entries_give_states(file, num_blocks, m, b);
        let last = entry_at(file, n - 1);
        let before = entries_applied(file, num_blocks, m);
        assert forall|i: int|
            0 <= i < n && (#[trigger] entry_at(file, i)).0 == b && (forall|j: int|
                0 <= j < n && j != i ==> (#[trigger] entry_at(
                    file,
                    j,
                )).0 != b) implies entries_applied(file, num_blocks, n)[b] == entry_at(
            file,
            i,
        ).1 by {
            if i < m {
                assert(last.0 != b);
                assert(before[b] == entry_at(file, i).1);
            } else {
                assert(before[b] == 0);
            }
        }
    }
}

/// How a file is laid out: the magic bytes, version 5, the sizes and the number of blocks, then
/// one entry of five bytes per present block, the two sequence numbers, and the checksum of all
/// that.
pub proof fn law_metadata_layout(
    device_size: u64,
    block_size: u64,
    map: SparseStateMap,
    max_sequence: u64,
    rotation_seq: u64,
    file: Vec<u8>,
)
    requires
        call_ensures(
            encode_metadata,
            (device_size, block_size, &map, max_sequence, rotation_seq),
            file,
        ),
        map@.len() <= u32::MAX,
    ensures
        ({
            let f = file@;
            let count = map@.filter(|s: u8| s != 0).len();
            let n = 60 + 5 * count;
            &&& f.len() == n + 4
            &&& f.subrange(0, 8) == seq![0x47u8, 0x4c, 0x49, 0x44, 0x45, 0x43, 0x43, 0x48]
            &&& spec_u32_from_le_bytes(f.subrange(8, 12)) == 5
            &&& spec_u64_from_le_bytes(f.subrange(12, 20)) == device_size
            &&& spec_u64_from_le_bytes(f.subrange(20, 28)) == block_size
            &&& spec_u64_from_le_bytes(f.subrange(28, 36)) == map@.len()
            &&& spec_u64_from_le_bytes(f.subrange(36, 44)) == count
            &&& spec_u64_from_le_bytes(f.subrange(n - 16, n - 8)) == max_sequence
            &&& spec_u64_from_le_bytes(f.subrange(n - 8, n as int)) == rotation_seq
            &&& spec_u32_from_le_bytes(f.subrange(n as int, n as int + 4)) == crc32_iscsi_of(
                f.take(n as int),
            )
        }),
{
    lemma_auto_spec_u32_to_from_le_bytes();
    lemma_auto_spec_u64_to_from_le_bytes();
    let entries = present_entries(map@, map@.len());
    lemma_present_entries(map@, map@.len());
    lemma_present_count(map@, map@.len());
    assert(map@.take(map@.len() as int) =~= map@);
    lemma_entries_len(entries);
    let body = metadata_body(device_size, block_size, map@, max_sequence, rotation_seq);
    let f = file@;
    let n = 60 + 5 * entries.len() as int;
    assert(body.len() == n);
    assert(f.take(n) =~= body);
    assert(f.subrange(0, 8) =~= metadata_magic());
    assert(f.subrange(8, 12) =~= spec_u32_to_le_bytes(METADATA_VERSION));
    assert(f.subrange(12, 20) =~= spec_u64_to_le_bytes(device_size));
    assert(f.subrange(20, 28) =~= spec_u64_to_le_bytes(block_size));
    assert(f.subrange(28, 36) =~= spec_u64_to_le_bytes(map@.len() as u64));
    assert(f.subrange(36, 44) =~= spec_u64_to_le_bytes(entries.len() as u64));
    assert(f.subrange(n - 16, n - 8) =~= spec_u64_to_le_bytes(max_sequence));
    assert(f.subrange(n - 8, n) =~= spec_u64_to_le_bytes(rotation_seq));
    assert(f.subrange(n, n + 4) =~= spec_u32_to_le_bytes(crc32_iscsi_of(body)));
}

proof fn lemma_present_count(states: Seq<u8>, n: nat)
    requires
        n <= states.len(),
    ensures
        present_entries(states, n).len() == states.take(n as int).filter(|s: u8| s != 0).len(),
    decreases n,
{
    reveal(Seq::filter);
    if n > 0 {
        lemma_present_count(states, (n - 1) as nat);
        assert(states.take(n as int).drop_last() =~= states.take(n - 1));
        assert(states.take(n as int).last() == states[n - 1]);
    }
}

/// The error for an old file names its version, and that for a short one says that it is short.
pub proof fn law_metadata_errors(
    config: WriteCacheConfig,
    file: Vec<u8>,
    result: Result<LoadedMetadata, CacheError>,
)
    requires
        call_ensures(load_metadata, (&config, Some(&file)), result),
        result is Err,
        result->Err_0 is Io,
    ensures
        result->Err_0->Io_0.kind == IoErrorKind::InvalidData ==> result->Err_0->Io_0.message@
            == "unsupported metadata version "@ + decimal(
            spec_u32_from_le_bytes(file@.subrange(8, 12)) as int,
        ) + " (minimum 4)"@,
        result->Err_0->Io_0.kind != IoErrorKind::InvalidData ==> result->Err_0->Io_0.kind
            == IoErrorKind::UnexpectedEof && result->Err_0->Io_0.message@
            == "failed to fill whole buffer"@,
{
}

} // verus!
