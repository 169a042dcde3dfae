//! State shared by all operations on a cache.

use std::collections::HashSet;
use vstd::prelude::*;
use crate::write_cache::blocks::{BlockTable, Blocks};
use crate::write_cache::config::WriteCacheConfig;
use crate::write_cache::page_crcs::{no_crcs, PageCrcs, PAGE_SIZE};
use crate::write_cache::state_map::SparseBlockState;

verus! {

/// Default pack-window readahead size: 32 MiB of pack bytes per cold-miss GET.
pub const DEFAULT_READAHEAD_WINDOW_BYTES: u32 = 33_554_432;

/// Whether a byte string holds zeros only.
pub open spec fn all_zero(data: Seq<u8>) -> bool {
    forall|i: int| 0 <= i < data.len() ==> data[i] == 0
}

/// Check if a block is all zeros.
pub fn is_zero_block(data: &[u8]) -> (zero: bool)
    ensures
        zero == all_zero(data@),
{
    let n: usize = data.len();
    let mut i: usize = 0;
    while i < n
        invariant
            n == data@.len(),
            i <= n,
            forall|j: int| 0 <= j < i ==> data@[j] == 0,
        decreases n - i,
    {
        if data[i] != 0 {
            return false;
        }
        i = i + 1;
    }
    true
}

/// Per-export handoff phase: which window of the graceful daemon handoff the
/// cache is currently inside.
#[derive(Copy, Clone, Debug, PartialEq, Eq, Structural)]
pub enum HandoffPhase {
    /// No handoff in flight. Default state.
    Idle,
    /// Successor has opened the cache; predecessor is still serving.
    Warming,
    /// Predecessor's freeze is in progress.
    Freezing,
    /// After the cutover, before the successor reports that it is alive.
    Cutover,
}

impl HandoffPhase {
    /// The phase that a byte stands for.
    pub open spec fn spec_from_u8(v: u8) -> HandoffPhase {
        if v == 1 {
            HandoffPhase::Warming
        } else if v == 2 {
            HandoffPhase::Freezing
        } else if v == 3 {
            HandoffPhase::Cutover
        } else {
            HandoffPhase::Idle
        }
    }

    /// Decode from a raw byte. Unknown values fall back to `Idle`.
    pub fn from_u8(v: u8) -> (phase: Self)
        ensures
            phase == HandoffPhase::spec_from_u8(v),
    {
        match v {
            1 => HandoffPhase::Warming,
            2 => HandoffPhase::Freezing,
            3 => HandoffPhase::Cutover,
            _ => HandoffPhase::Idle,
        }
    }

    /// The byte that stands for the phase.
    pub fn to_u8(self) -> (v: u8)
        ensures
            v <= 3,
            HandoffPhase::spec_from_u8(v) == self,
    {
        match self {
            HandoffPhase::Idle => 0,
            HandoffPhase::Warming => 1,
            HandoffPhase::Freezing => 2,
            HandoffPhase::Cutover => 3,
        }
    }

    /// True when any handoff phase is in flight. Flushes and WAL truncation
    /// wait until none is.
    pub fn is_active(self) -> (active: bool)
        ensures
            active == (self != HandoffPhase::Idle),
    {
        match self {
            HandoffPhase::Idle => false,
            _ => true,
        }
    }
}

/// How long the flushing file of a finished flush has to stay on disk. Until the
/// manifest lists its packs and the states of its blocks are saved, recovery takes the
/// blocks from it.
#[derive(Debug, Clone, Copy, PartialEq, Eq, Structural)]
pub enum SafetyNet {
    /// No finished flush needs its file.
    NotNeeded,
    /// Until the manifest is synced and a checkpoint follows.
    UntilSynced,
    /// The manifest is synced. Until the next checkpoint.
    UntilSaved,
}

impl SafetyNet {
    /// Once the manifest is synced.
    pub open spec fn spec_synced(self) -> SafetyNet {
        if self == SafetyNet::UntilSynced {
            SafetyNet::UntilSaved
        } else {
            self
        }
    }

    /// Once the manifest is synced.
    pub fn synced(self) -> (net: SafetyNet)
        ensures
            net == self.spec_synced(),
    {
        match self {
            SafetyNet::UntilSynced => SafetyNet::UntilSaved,
            other => other,
        }
    }

    /// Once the states of the blocks are saved.
    pub open spec fn spec_saved(self) -> SafetyNet {
        if self == SafetyNet::UntilSaved {
            SafetyNet::NotNeeded
        } else {
            self
        }
    }

    /// Once the states of the blocks are saved.
    pub fn saved(self) -> (net: SafetyNet)
        ensures
            net == self.spec_saved(),
    {
        match self {
            SafetyNet::UntilSaved => SafetyNet::NotNeeded,
            other => other,
        }
    }
}

/// Points of a flush at which a test can hold it.
#[derive(Debug, Clone, Copy, PartialEq, Eq, Structural)]
pub enum FlushStep {
    AfterCrcPrepass,
    AfterRotation,
    AfterCompute,
    BeforeEvict,
    AfterEvict,
}

/// A flush has reached a step.
#[derive(Debug)]
pub struct FlushGateEvent {
    pub step: FlushStep,
    pub block_count: usize,
}

/// Points of a promotion at which a test can hold it.
#[derive(Debug, Clone, Copy, PartialEq, Eq, Structural)]
pub enum PromoteStep {
    AfterCloneArc,
    AfterRead,
    BeforeCas,
}

/// A promotion has reached a step.
#[derive(Debug)]
pub struct PromoteGateEvent {
    pub step: PromoteStep,
    pub block_idx: usize,
}

/// Points of a read at which a test can hold it.
#[derive(Debug, Clone, Copy, PartialEq, Eq, Structural)]
pub enum ReadStep {
    AfterStateCheck,
    AfterRecheck,
    BeforePread,
}

/// A read has reached a step.
#[derive(Debug)]
pub struct ReadGateEvent {
    pub step: ReadStep,
    pub block_idx: usize,
    pub block_state: u8,
}

/// The blocks whose data is being copied from the flushing file at the moment.
/// At most one task copies a block at a time. The set stays as small as the
/// number of requests in flight, whatever the size of the device.
pub struct PromoteClaimBitmap {
    in_flight: HashSet<usize>,
}

impl View for PromoteClaimBitmap {
    type V = Set<usize>;

    closed spec fn view(&self) -> Set<usize> {
        self.in_flight@
    }
}

impl PromoteClaimBitmap {
    /// No block is claimed.
    pub fn new() -> (claims: Self)
        ensures
            claims@ == Set::<usize>::empty(),
    {
        PromoteClaimBitmap { in_flight: HashSet::new() }
    }

    /// Claim `idx`. `true` iff nobody held the claim.
    pub fn try_claim(&mut self, idx: usize) -> (owned: bool)
        ensures
            final(self)@ == old(self)@.insert(idx),
            owned == !old(self)@.contains(idx),
    {
        broadcast use vstd::std_specs::hash::group_hash_axioms;

        self.in_flight.insert(idx)
    }

    /// Give the claim of `idx` up.
    pub fn release(&mut self, idx: usize)
        ensures
            final(self)@ == old(self)@.remove(idx),
    {
        broadcast use vstd::std_specs::hash::group_hash_axioms;

        let _ = self.in_flight.remove(&idx);
    }

    /// Whether any task currently holds the claim for `idx`.
    pub fn is_claimed(&self, idx: usize) -> (claimed: bool)
        ensures
            claimed == self@.contains(idx),
    {
        broadcast use vstd::std_specs::hash::group_hash_axioms;

        self.in_flight.contains(&idx)
    }
}

/// Everything that the operations of a cache read and change, but for the
/// contents of its files.
pub struct CacheInner {
    pub config: WriteCacheConfig,
    pub blocks: BlockTable,
    pub promote_claim: PromoteClaimBitmap,
    pub page_crcs: PageCrcs,
    /// Sequence number of the latest WAL entry.
    pub sequence: u64,
    /// Sequence number at the last file rotation. 0 when no rotation is active.
    pub rotation_seq: u64,
    /// True while a flush rotation is in progress.
    pub flushing_active: bool,
    /// Whether the handle of a flushing file is held.
    pub flushing_open: bool,
    /// Whether the flushing file of a finished flush is still needed.
    pub safety_net: SafetyNet,
    pub handoff_phase: HandoffPhase,
    /// While set, a checkpoint leaves the WAL as it is.
    pub freeze_in_progress: bool,
    /// Pack-window readahead size in bytes for the cold-miss fetch path.
    pub readahead_window_bytes: u32,
    /// Recovery issues encountered while the cache was opened.
    pub recovery_warnings: u64,
    /// Set once a strictly newer generation took the volume; never cleared. The
    /// cache then takes no more guest writes.
    pub fenced: bool,
    /// Generation that this writer was granted at attach.
    pub current_generation: u64,
    /// Last known ETag of the manifest.
    pub manifest_etag: Option<String>,
}

/// What a `CacheInner` holds.
pub struct CacheState {
    pub config: WriteCacheConfig,
    pub blocks: Blocks,
    pub claims: Set<usize>,
    pub crcs: Map<u32, Seq<u32>>,
    pub sequence: u64,
    pub rotation_seq: u64,
    pub flushing_active: bool,
    pub flushing_open: bool,
    pub safety_net: SafetyNet,
    pub handoff_phase: HandoffPhase,
    pub freeze_in_progress: bool,
    pub readahead_window_bytes: u32,
    pub recovery_warnings: u64,
    pub fenced: bool,
    pub current_generation: u64,
    pub manifest_etag: Option<String>,
}

impl CacheState {
    /// Number of blocks of the device.
    pub open spec fn num_blocks(self) -> int {
        self.blocks.states.len() as int
    }

    /// Block size in bytes.
    pub open spec fn bs(self) -> int {
        self.config.block_size as int
    }

    /// Device size in bytes.
    pub open spec fn ds(self) -> int {
        self.config.device_size as int
    }

    /// The state of a block.
    pub open spec fn state(self, block: int) -> u8 {
        self.blocks.states[block]
    }
}

impl View for CacheInner {
    type V = CacheState;

    open spec fn view(&self) -> CacheState {
        CacheState {
            config: self.config,
            blocks: self.blocks@,
            claims: self.promote_claim@,
            crcs: self.page_crcs@,
            sequence: self.sequence,
            rotation_seq: self.rotation_seq,
            flushing_active: self.flushing_active,
            flushing_open: self.flushing_open,
            safety_net: self.safety_net,
            handoff_phase: self.handoff_phase,
            freeze_in_progress: self.freeze_in_progress,
            readahead_window_bytes: self.readahead_window_bytes,
            recovery_warnings: self.recovery_warnings,
            fenced: self.fenced,
            current_generation: self.current_generation,
            manifest_etag: self.manifest_etag,
        }
    }
}

/// Whether a configuration is one that a cache can be opened with: block
/// numbers fit in the 32 bits that the file formats give them.
pub open spec fn usable_config(config: WriteCacheConfig) -> bool {
    &&& config.block_size > 0
    &&& config.device_size > 0
    &&& config.spec_num_blocks() <= u32::MAX
}

impl CacheInner {
    /// The block table covers the device and the checksums have the shape that
    /// the block size gives them.
    pub open spec fn wf(&self) -> bool {
        &&& usable_config(self.config)
        &&& self.blocks.wf()
        &&& self.blocks@.states.len() == self.config.spec_num_blocks()
        &&& self.page_crcs.wf()
        &&& self.page_crcs.pages() == self.config.block_size as int / PAGE_SIZE as int
    }

    /// A cache with no block present.
    pub fn fresh(config: WriteCacheConfig, passive: bool) -> (inner: CacheInner)
        requires
            usable_config(config),
        ensures
            inner.wf(),
            inner@ == fresh_state(config, passive),
    {
        let num_blocks: usize = config.num_blocks();
        let page_crcs = PageCrcs::new(config.block_size);
        let inner = CacheInner {
            config,
            blocks: BlockTable::new(num_blocks),
            promote_claim: PromoteClaimBitmap::new(),
            page_crcs,
            sequence: 0,
            rotation_seq: 0,
            flushing_active: false,
            flushing_open: false,
            safety_net: SafetyNet::NotNeeded,
            handoff_phase: initial_phase(passive),
            freeze_in_progress: false,
            readahead_window_bytes: DEFAULT_READAHEAD_WINDOW_BYTES,
            recovery_warnings: 0,
            fenced: false,
            current_generation: 0,
            manifest_etag: None,
        };
        assert(inner.blocks@.states =~= Seq::new(
            config.spec_num_blocks() as nat,
            |i: int| SparseBlockState::NOT_PRESENT,
        ));
        inner
    }
}

/// The phase that a cache starts in: a handoff successor starts passive, so
/// that it neither flushes nor truncates files that its predecessor still uses.
pub open spec fn spec_initial_phase(passive: bool) -> HandoffPhase {
    if passive {
        HandoffPhase::Warming
    } else {
        HandoffPhase::Idle
    }
}

pub fn initial_phase(passive: bool) -> (phase: HandoffPhase)
    ensures
        phase == spec_initial_phase(passive),
{
    if passive {
        HandoffPhase::Warming
    } else {
        HandoffPhase::Idle
    }
}

/// The state of a cache with no block present.
pub open spec fn fresh_state(config: WriteCacheConfig, passive: bool) -> CacheState {
    CacheState {
        config,
        blocks: Blocks {
            states: Seq::new(
                config.spec_num_blocks() as nat,
                |i: int| SparseBlockState::NOT_PRESENT,
            ),
            dirty: 0,
            syncing: 0,
        },
        claims: Set::empty(),
        crcs: no_crcs(),
        sequence: 0,
        rotation_seq: 0,
        flushing_active: false,
        flushing_open: false,
        safety_net: SafetyNet::NotNeeded,
        handoff_phase: spec_initial_phase(passive),
        freeze_in_progress: false,
        readahead_window_bytes: DEFAULT_READAHEAD_WINDOW_BYTES,
        recovery_warnings: 0,
        fenced: false,
        current_generation: 0,
        manifest_etag: None,
    }
}

/// The phases are the bytes 0 to 3, and the byte of a phase reads back as the phase. Any
/// other byte means that no handoff is in flight, and only that phase is inactive.
pub proof fn law_phases_are_bytes(v: u8, phase: HandoffPhase, byte: u8, active: bool)
    requires
        call_ensures(HandoffPhase::from_u8, (v,), phase),
        call_ensures(HandoffPhase::to_u8, (phase,), byte),
        call_ensures(HandoffPhase::is_active, (phase,), active),
    ensures
        v <= 3 ==> byte == v,
        v > 3 ==> phase == HandoffPhase::Idle,
        active <==> 1 <= v <= 3,
        phase == HandoffPhase::Idle <==> byte == 0,
        phase == HandoffPhase::Warming <==> byte == 1,
        phase == HandoffPhase::Freezing <==> byte == 2,
        phase == HandoffPhase::Cutover <==> byte == 3,
{
}

/// The file of a finished flush is given up only once the manifest is synced and, after
/// that, the states of the blocks are saved: saving without a sync before it changes
/// nothing, and neither step makes a file needed again.
pub proof fn law_safety_net_goes_in_order(net: SafetyNet)
    ensures
        net.spec_synced().spec_saved() == SafetyNet::NotNeeded,
        net.spec_saved() == SafetyNet::NotNeeded <==> net != SafetyNet::UntilSynced,
        net == SafetyNet::UntilSynced ==> net.spec_saved() == net && net.spec_synced()
            == SafetyNet::UntilSaved,
        net.spec_synced() != SafetyNet::UntilSynced,
        net == SafetyNet::NotNeeded ==> net.spec_synced() == net && net.spec_saved() == net,
        net == SafetyNet::UntilSaved ==> net.spec_synced() == net,
{
}

/// A fresh cache has no block, nothing to flush, no claim, no checksum and no WAL entry, and
/// takes part in a handoff only if it was opened as a successor.
pub proof fn law_fresh_cache(config: WriteCacheConfig, passive: bool, inner: CacheInner)
    requires
        call_ensures(CacheInner::fresh, (config, passive), inner),
        usable_config(config),
    ensures
        inner.config == config,
        (inner@.num_blocks() - 1) * config.block_size < config.device_size,
        config.device_size <= inner@.num_blocks() * config.block_size,
        forall|i: int| 0 <= i < inner@.num_blocks() ==> #[trigger] inner@.state(i) == 0,
        inner@.blocks.dirty == 0 && inner@.blocks.syncing == 0,
        inner@.claims == Set::<usize>::empty(),
        inner@.crcs == Map::<u32, Seq<u32>>::empty(),
        inner.sequence == 0 && inner.rotation_seq == 0 && inner.recovery_warnings == 0
            && inner.current_generation == 0,
        !inner.flushing_active && !inner.flushing_open && !inner.freeze_in_progress
            && !inner.fenced,
        inner.safety_net == SafetyNet::NotNeeded && inner.manifest_etag is None,
        inner.readahead_window_bytes == 32 * 1024 * 1024,
        inner.handoff_phase == if passive {
            HandoffPhase::Warming
        } else {
            HandoffPhase::Idle
        },
{
    let d = config.device_size as int;
    let b = config.block_size as int;
    let whole = d / b;
    vstd::arithmetic::div_mod::lemma_fundamental_div_mod(d, b);
    vstd::arithmetic::div_mod::lemma_mod_bound(d, b);
    assert(b * whole == whole * b) by (nonlinear_arith);
    assert((whole + 1) * b == whole * b + b) by (nonlinear_arith);
    assert((whole - 1) * b == whole * b - b) by (nonlinear_arith);
}

/// A block is a block of zeros exactly if every byte is zero.
pub proof fn law_zero_blocks(data: &[u8], zero: bool)
    requires
        call_ensures(is_zero_block, (data,), zero),
    ensures
        zero <==> forall|i: int| 0 <= i < data@.len() ==> #[trigger] data@[i] == 0,
{
    assert(all_zero(data@) <==> forall|i: int| 0 <= i < data@.len() ==> #[trigger] data@[i] == 0);
}

/// A block has one claim at a time: the first to ask gets it, nobody else does until it is
/// given up, and no other block is touched.
pub proof fn law_claims(
    claims: &mut PromoteClaimBitmap,
    owned: bool,
    freed: &mut PromoteClaimBitmap,
    seen: PromoteClaimBitmap,
    claimed: bool,
    idx: usize,
    other: usize,
)
    requires
        call_ensures(PromoteClaimBitmap::try_claim, (claims, idx), owned),
        call_ensures(PromoteClaimBitmap::release, (freed, idx), ()),
        call_ensures(PromoteClaimBitmap::is_claimed, (&seen, idx), claimed),
        other != idx,
    ensures
        owned <==> !mut_ref_current(claims)@.contains(idx),
        mut_ref_future(claims)@.contains(idx),
        mut_ref_future(claims)@.contains(other) == mut_ref_current(claims)@.contains(other),
        !mut_ref_future(freed)@.contains(idx),
        mut_ref_future(freed)@.contains(other) == mut_ref_current(freed)@.contains(other),
        claimed <==> seen@.contains(idx),
{
}

} // verus!
