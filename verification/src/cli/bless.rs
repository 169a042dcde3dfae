//! Turning disk images and OCI images into base images.

use vstd::arithmetic::power2::{
    lemma2_to64, lemma2_to64_rest, lemma_pow2_strictly_increases, lemma_pow2_unfold, pow2,
};
use vstd::prelude::*;
use vstd::string::StringExecFns;
use crate::gc::layers::contains_text;
use crate::gc::state::texts;
use crate::text::{chars_of, decimal, law_decimal_reads_back, parse_number, parsed_number};
use crate::time::Duration;

verus! {

/// Block size of a volume.
pub const BLOCK_SIZE: u32 = 131_072;

/// Smallest volume that an OCI image is put on.
pub const MIN_DEVICE_SIZE: u64 = 67_108_864;

/// How often a cache is flushed before it is given up that it gets empty.
pub const MAX_DRAIN_ITERATIONS: u32 = 100;

/// Seconds that a boot is observed for, unless told otherwise.
pub const DEFAULT_PROFILE_SECS: u64 = 30;

/// Blocks of an image.
pub fn total_blocks(device_size: u64) -> (blocks: u64)
    ensures
        blocks == (device_size + BLOCK_SIZE - 1) / BLOCK_SIZE as int,
{
    let full: u64 = device_size / BLOCK_SIZE as u64;
    if device_size % BLOCK_SIZE as u64 == 0 {
        full
    } else {
        full + 1
    }
}

/// The sum of the sizes of layers.
pub open spec fn total_size(sizes: Seq<u64>) -> int
    decreases sizes.len(),
{
    if sizes.len() == 0 {
        0
    } else {
        total_size(sizes.drop_last()) + sizes.last()
    }
}

/// How much room an image needs at most: four times its compressed layers, for
/// decompression, file system overhead and alignment, and at least the smallest
/// volume.
pub open spec fn room_needed(sizes: Seq<u64>) -> int {
    if total_size(sizes) * 4 < MIN_DEVICE_SIZE {
        MIN_DEVICE_SIZE as int
    } else {
        total_size(sizes) * 4
    }
}

/// Whether `size` is the smallest power of two that has room for `needed`.
pub open spec fn fits_tightly(size: int, needed: int) -> bool {
    &&& size >= needed
    &&& exists|k: nat| size == pow2(k)
    &&& forall|k: nat| #[trigger] pow2(k) >= needed ==> size <= pow2(k)
}

/// The sum of the sizes of layers, if it is a number of 64 bits.
fn checked_total(sizes: &Vec<u64>) -> (sum: Option<u64>)
    ensures
        match sum {
            Some(total) => total == total_size(sizes@),
            None => total_size(sizes@) > u64::MAX,
        },
{
    let mut total: u64 = 0;
    let mut i: usize = 0;
    assert(sizes@.take(0) =~= Seq::empty());
    while i < sizes.len()
        invariant
            i <= sizes@.len(),
            total == total_size(sizes@.take(i as int)),
        decreases sizes@.len() - i,
    {
        proof {
            assert(sizes@.take(i + 1).drop_last() =~= sizes@.take(i as int));
            lemma_total_grows(sizes@, i + 1);
        }
        match total.checked_add(sizes[i]) {
            Some(sum) => {
                total = sum;
            },
            None => {
                return None;
            },
        }
        i = i + 1;
    }
    assert(sizes@.take(i as int) =~= sizes@);
    Some(total)
}

/// Tests whether there is a volume for an image with the given layers.
pub fn is_device_size_in_range(sizes: &Vec<u64>) -> (fits: bool)
    ensures
        fits == (room_needed(sizes@) <= 0x8000_0000_0000_0000),
{
    match checked_total(sizes) {
        Some(total) => total <= 0x2000_0000_0000_0000,
        None => false,
    }
}

proof fn lemma_total_grows(sizes: Seq<u64>, i: int)
    requires
        0 <= i <= sizes.len(),
    ensures
        0 <= total_size(sizes.take(i)) <= total_size(sizes),
    decreases sizes.len(),
{
    if i == sizes.len() {
        assert(sizes.take(i) =~= sizes);
        if i > 0 {
            lemma_total_grows(sizes.drop_last(), i - 1);
            assert(sizes.drop_last().take(i - 1) =~= sizes.drop_last());
        }
    } else {
        assert(sizes.drop_last().take(i) =~= sizes.take(i));
        lemma_total_grows(sizes.drop_last(), i);
    }
}

/// Size of the volume that an OCI image with the given compressed layers is put
/// on: the next power of two from the room that it needs.
pub fn estimate_device_size(sizes: &Vec<u64>) -> (size: u64)
    requires
        room_needed(sizes@) <= 0x8000_0000_0000_0000,
    ensures
        fits_tightly(size as int, room_needed(sizes@)),
{
    let total: u64 = match checked_total(sizes) {
        Some(total) => total,
        None => 0,
    };
    let needed: u64 = if total * 4 < MIN_DEVICE_SIZE {
        MIN_DEVICE_SIZE
    } else {
        total * 4
    };
    next_power_of_two(needed)
}

/// The smallest power of two that is at least `needed`.
fn next_power_of_two(needed: u64) -> (size: u64)
    requires
        0 < needed <= 0x8000_0000_0000_0000,
    ensures
        fits_tightly(size as int, needed as int),
{
    let mut size: u64 = 1;
    let ghost mut k: nat = 0;
    proof {
        lemma2_to64();
        lemma2_to64_rest();
    }
    while size < needed
        invariant
            size == pow2(k),
            size >= 1,
            needed <= 0x8000_0000_0000_0000,
            size <= 0x8000_0000_0000_0000,
            pow2(63) == 0x8000_0000_0000_0000,
            forall|j: nat| j < k ==> #[trigger] pow2(j) < needed,
        decreases 0x8000_0000_0000_0000 - size,
    {
        proof {
            lemma_pow2_unfold(k + 1);
            if k >= 63 {
                if k > 63 {
                    lemma_pow2_strictly_increases(63, k);
                }
                assert(false);
            }
            if k < 62 {
                lemma_pow2_strictly_increases(k + 1, 63);
            }
        }
        size = size * 2;
        proof {
            k = k + 1;
        }
    }
    proof {
        assert forall|j: nat| #[trigger] pow2(j) >= needed implies size <= pow2(j) by {
            if j > k {
                lemma_pow2_strictly_increases(k, j);
            }
        }
    }
    size
}

/// The manifest of a base image.
pub fn base_manifest_key(name: &str) -> (key: String)
    ensures
        key@ == "bases/"@ + name@,
{
    prefixed("bases/", name)
}

/// The device that an OCI image is built on as ext4.
pub fn oci_device_name(name: &str) -> (device: String)
    ensures
        device@ == "bless-oci-"@ + name@,
{
    prefixed("bless-oci-", name)
}

/// The device that an OCI image is built on as EROFS.
pub fn erofs_device_name(name: &str) -> (device: String)
    ensures
        device@ == "bless-erofs-"@ + name@,
{
    prefixed("bless-erofs-", name)
}

fn prefixed(prefix: &str, name: &str) -> (text: String)
    ensures
        text@ == prefix@ + name@,
{
    let mut text = String::from_str(prefix);
    text.append(name);
    text
}

/// What to do after a flush.
#[derive(Debug, Clone, Copy, PartialEq, Eq, Structural)]
pub enum DrainNext {
    /// Flush once more.
    Again,
    /// Nothing was left to flush.
    Done,
    /// Blocks are still dirty after the last flush: the image must not be stored.
    NotConverged,
}

/// Flushing until nothing is left.
#[derive(Debug)]
pub struct Drain {
    /// Flushes so far.
    pub iterations: u32,
}

impl Drain {
    /// Before the first flush.
    pub fn new() -> (drain: Self)
        ensures
            drain.iterations == 0,
    {
        Drain { iterations: 0 }
    }

    /// Takes in how many blocks a flush has claimed.
    pub fn flushed(&mut self, blocks_claimed: usize) -> (next: DrainNext)
        requires
            old(self).iterations < MAX_DRAIN_ITERATIONS,
        ensures
            final(self).iterations == old(self).iterations + 1,
            next == (if blocks_claimed == 0 {
                DrainNext::Done
            } else if final(self).iterations < MAX_DRAIN_ITERATIONS {
                DrainNext::Again
            } else {
                DrainNext::NotConverged
            }),
    {
        self.iterations = self.iterations + 1;
        if blocks_claimed == 0 {
            DrainNext::Done
        } else if self.iterations < MAX_DRAIN_ITERATIONS {
            DrainNext::Again
        } else {
            DrainNext::NotConverged
        }
    }
}

/// How flushes that claim the given numbers of blocks end: with the first that
/// claims none, or after the last that is allowed.
pub open spec fn drained(claimed: Seq<usize>) -> DrainNext
    decreases claimed.len(),
{
    if claimed.len() == 0 {
        DrainNext::Again
    } else {
        match drained(claimed.drop_last()) {
            DrainNext::Again => if claimed.last() == 0 {
                DrainNext::Done
            } else if claimed.len() < MAX_DRAIN_ITERATIONS {
                DrainNext::Again
            } else {
                DrainNext::NotConverged
            },
            ended => ended,
        }
    }
}

/// An image is stored only if a flush found nothing left, and the flushes end.
pub proof fn law_drain_ends(claimed: Seq<usize>)
    requires
        claimed.len() >= MAX_DRAIN_ITERATIONS,
    ensures
        drained(claimed) is Done <==> exists|i: int|
            0 <= i < MAX_DRAIN_ITERATIONS && #[trigger] claimed[i] == 0,
        !(drained(claimed) is Again),
    decreases claimed.len(),
{
    if claimed.len() > MAX_DRAIN_ITERATIONS {
        let rest = claimed.drop_last();
        law_drain_ends(rest);
        assert forall|i: int| 0 <= i < MAX_DRAIN_ITERATIONS implies #[trigger] rest[i]
            == claimed[i] by {}
        if exists|i: int| 0 <= i < MAX_DRAIN_ITERATIONS && #[trigger] claimed[i] == 0 {
            let i = choose|i: int| 0 <= i < MAX_DRAIN_ITERATIONS && #[trigger] claimed[i] == 0;
            assert(rest[i] == 0);
        }
    } else {
        lemma_drain(claimed.drop_last());
        let rest = claimed.drop_last();
        if exists|i: int| 0 <= i < rest.len() && #[trigger] rest[i] == 0 {
            let i = choose|i: int| 0 <= i < rest.len() && #[trigger] rest[i] == 0;
            assert(claimed[i] == 0);
        }
        if exists|i: int| 0 <= i < claimed.len() && #[trigger] claimed[i] == 0 {
            let i = choose|i: int| 0 <= i < claimed.len() && #[trigger] claimed[i] == 0;
            if i < rest.len() {
                assert(rest[i] == 0);
            }
        }
        assert(claimed.last() == claimed[claimed.len() - 1]);
    }
}

proof fn lemma_drain(claimed: Seq<usize>)
    requires
        claimed.len() < MAX_DRAIN_ITERATIONS,
    ensures
        drained(claimed) == (if exists|i: int|
            0 <= i < claimed.len() && #[trigger] claimed[i] == 0 {
            DrainNext::Done
        } else {
            DrainNext::Again
        }),
    decreases claimed.len(),
{
    if claimed.len() > 0 {
        let rest = claimed.drop_last();
        lemma_drain(rest);
        if exists|i: int| 0 <= i < rest.len() && #[trigger] rest[i] == 0 {
            let i = choose|i: int| 0 <= i < rest.len() && #[trigger] rest[i] == 0;
            assert(claimed[i] == 0);
        }
        if exists|i: int| 0 <= i < claimed.len() && #[trigger] claimed[i] == 0 {
            let i = choose|i: int| 0 <= i < claimed.len() && #[trigger] claimed[i] == 0;
            if i < rest.len() {
                assert(rest[i] == 0);
            }
        }
        assert(claimed.last() == claimed[claimed.len() - 1]);
    }
}

/// Paths with those of another list added that are not there yet.
pub open spec fn with_added(paths: Seq<Seq<char>>, more: Seq<Seq<char>>) -> Seq<Seq<char>>
    decreases more.len(),
{
    if more.len() == 0 {
        paths
    } else {
        let before = with_added(paths, more.drop_last());
        if before.contains(more.last()) {
            before
        } else {
            before.push(more.last())
        }
    }
}

/// Adds the paths of another list that are not there yet, in their order.
pub fn add_paths(paths: &mut Vec<String>, more: &Vec<String>)
    ensures
        texts(final(paths)@) == with_added(texts(old(paths)@), texts(more@)),
{
    let ghost all = texts(more@);
    let mut i: usize = 0;
    assert(all.take(0) =~= Seq::empty());
    while i < more.len()
        invariant
            i <= more@.len(),
            all == texts(more@),
            texts(paths@) == with_added(texts(old(paths)@), all.take(i as int)),
        decreases more@.len() - i,
    {
        proof {
            assert(all.take(i + 1).drop_last() =~= all.take(i as int));
            assert(all.take(i + 1).last() == more@[i as int]@);
        }
        if !contains_text(paths, &more[i]) {
            let ghost before = paths@;
            paths.push(more[i].clone());
            assert(texts(paths@) =~= texts(before).push(more@[i as int]@));
        }
        i = i + 1;
    }
    assert(all.take(i as int) =~= all);
}

/// The union keeps the captured paths in front, holds every path of both lists,
/// and no others.
pub proof fn law_boot_set_is_union(paths: Seq<Seq<char>>, more: Seq<Seq<char>>)
    ensures
        paths.is_prefix_of(with_added(paths, more)),
        forall|p: Seq<char>| #[trigger]
            with_added(paths, more).contains(p) == (paths.contains(p) || more.contains(p)),
    decreases more.len(),
{
    if more.len() > 0 {
        let rest = more.drop_last();
        let last = more.last();
        law_boot_set_is_union(paths, rest);
        let before = with_added(paths, rest);
        let after = with_added(paths, more);
        assert forall|p: Seq<char>| #[trigger] after.contains(p) == (paths.contains(p)
            || more.contains(p)) by {
            assert(more[more.len() - 1] == last);
            if rest.contains(p) {
                let i = choose|i: int| 0 <= i < rest.len() && rest[i] == p;
                assert(more[i] == p);
            }
            if more.contains(p) {
                let i = choose|i: int| 0 <= i < more.len() && more[i] == p;
                if i < rest.len() {
                    assert(rest[i] == p);
                }
            }
            if before.contains(p) {
                let i = choose|i: int| 0 <= i < before.len() && before[i] == p;
                assert(after[i] == p);
            }
            if after.contains(p) {
                let i = choose|i: int| 0 <= i < after.len() && after[i] == p;
                if i < before.len() {
                    assert(before[i] == p);
                }
            }
            if p == last && !before.contains(last) {
                assert(after[before.len() as int] == last);
            }
        }
        assert(paths =~= after.subrange(0, paths.len() as int)) by {
            assert(paths =~= before.subrange(0, paths.len() as int));
        }
    }
}

/// Select the boot set. With profiling, the captured paths, unioned with the
/// static closure as a backstop; otherwise, and when profiling captured nothing or
/// failed, just the static closure.
pub fn derive_boot_set(
    profile: bool,
    captured: Option<Vec<String>>,
    derived: Vec<String>,
) -> (paths: Vec<String>)
    ensures
        texts(paths@) == (match captured {
            Some(captured) => if profile && captured@.len() > 0 {
                with_added(texts(captured@), texts(derived@))
            } else {
                texts(derived@)
            },
            None => texts(derived@),
        }),
{
    if profile {
        if let Some(captured) = captured {
            if captured.len() > 0 {
                let mut paths: Vec<String> = captured;
                add_paths(&mut paths, &derived);
                return paths;
            }
        }
    }
    derived
}

/// How long a boot is observed for, given what the environment says. What is no
/// number counts as nothing.
pub fn profile_timeout(var: Option<&str>) -> (timeout: Duration)
    ensures
        timeout.nanos == 0,
        timeout.secs == (match var {
            Some(text) => match parsed_number(text@, 10, u64::MAX as int) {
                Some(secs) => secs,
                None => DEFAULT_PROFILE_SECS as int,
            },
            None => DEFAULT_PROFILE_SECS as int,
        }),
{
    if let Some(text) = var {
        let chars: Vec<char> = chars_of(text);
        assert(chars@.subrange(0, chars@.len() as int) =~= text@);
        if let Some(secs) = parse_number(&chars, 0, chars.len(), 10, u64::MAX) {
            return Duration::from_secs(secs);
        }
    }
    Duration::from_secs(DEFAULT_PROFILE_SECS)
}

/// Where big temporary files go.
#[derive(Debug)]
pub enum ScratchDir {
    /// The directory that was asked for.
    Given(String),
    /// `/var/tmp`, which is normally on a disk.
    VarTmp,
    /// The system's directory for temporary files.
    SystemTemp,
}

/// A disk-backed scratch directory: the one that was asked for, then `/var/tmp` if
/// it can be written to, else the system's.
pub fn bless_scratch_dir(workdir: Option<String>, var_tmp_usable: bool) -> (dir: ScratchDir)
    ensures
        match workdir {
            Some(given) => dir == ScratchDir::Given(given),
            None => dir == if var_tmp_usable {
                ScratchDir::VarTmp
            } else {
                ScratchDir::SystemTemp
            },
        },
{
    match workdir {
        Some(given) => ScratchDir::Given(given),
        None => if var_tmp_usable {
            ScratchDir::VarTmp
        } else {
            ScratchDir::SystemTemp
        },
    }
}

/// How much of an image to prefetch when its device is opened: the extent of the
/// boot set, if there is one.
pub fn prefetch_extent(prefetch_len: u64) -> (extent: Option<u64>)
    ensures
        extent == (if prefetch_len > 0 {
            Some(prefetch_len)
        } else {
            None
        }),
{
    if prefetch_len > 0 {
        Some(prefetch_len)
    } else {
        None
    }
}

/// The layers of an image, as they are stored one after the other.
#[derive(Debug)]
pub struct StoredLayers {
    pub digests: Vec<String>,
    pub sizes: Vec<u64>,
    /// Bytes that were uploaded.
    pub total_stored: u64,
    /// Layers that were there already.
    pub reused: usize,
}

impl StoredLayers {
    /// Before the first layer.
    pub fn new() -> (layers: Self)
        ensures
            layers.digests@.len() == 0,
            layers.sizes@.len() == 0,
            layers.total_stored == 0,
            layers.reused == 0,
    {
        StoredLayers { digests: Vec::new(), sizes: Vec::new(), total_stored: 0, reused: 0 }
    }

    /// Takes in a layer that was stored, or was there already.
    pub fn stored(&mut self, digest: String, size: u64, already_present: bool, stored_bytes: u64)
        requires
            old(self).total_stored + stored_bytes <= u64::MAX,
            old(self).reused < usize::MAX,
        ensures
            final(self).digests@ == old(self).digests@.push(digest),
            final(self).sizes@ == old(self).sizes@.push(size),
            final(self).total_stored == old(self).total_stored + stored_bytes,
            final(self).reused == old(self).reused + if already_present {
                1int
            } else {
                0int
            },
    {
        if already_present {
            self.reused = self.reused + 1;
        }
        self.total_stored = self.total_stored + stored_bytes;
        self.digests.push(digest);
        self.sizes.push(size);
    }
}

/// The blocks of an image hold all of it, and one block fewer would not.
pub proof fn law_blocks_hold_the_image(device_size: u64, blocks: u64)
    requires
        call_ensures(total_blocks, (device_size,), blocks),
    ensures
        device_size <= blocks * 131_072,
        device_size > 0 ==> (blocks - 1) * 131_072 < device_size,
        device_size == 0 ==> blocks == 0,
{
}

/// Sizes add up: those of two lists of layers to those of both, and one layer
/// counts with its size.
pub proof fn law_sizes_add_up(a: Seq<u64>, b: Seq<u64>)
    ensures
        total_size(a + b) == total_size(a) + total_size(b),
        forall|size: u64| #[trigger] total_size(seq![size]) == size,
    decreases b.len(),
{
    assert forall|size: u64| #[trigger] total_size(seq![size]) == size by {
        let one = seq![size];
        assert(one.drop_last() =~= Seq::empty());
        assert(total_size(one.drop_last()) == 0);
        assert(one.last() == size);
    }
    if b.len() == 0 {
        assert(a + b =~= a);
    } else {
        law_sizes_add_up(a, b.drop_last());
        assert((a + b).drop_last() =~= a + b.drop_last());
        assert((a + b).last() == b.last());
    }
}

/// The volume for an OCI image is a power of two, at least 64 MiB and at least four
/// times the layers, and half of it would not do.
pub proof fn law_volume_has_room(sizes: Vec<u64>, size: u64)
    requires
        call_ensures(estimate_device_size, (&sizes,), size),
    ensures
        size >= 67_108_864,
        size >= 4 * total_size(sizes@),
        exists|k: nat| size == #[trigger] pow2(k),
        size > 67_108_864 ==> size < 8 * total_size(sizes@),
{
    lemma2_to64();
    let k = choose|k: nat| size == pow2(k);
    assert(size == pow2(k));
    if size > 67_108_864 {
        if k < 26 {
            lemma_pow2_strictly_increases(k, 26);
        }
        lemma_pow2_unfold(k);
        let half = pow2((k - 1) as nat);
        assert(half < size);
        if 4 * total_size(sizes@) < 67_108_864 {
            assert(pow2(26) == 67_108_864);
            assert(size <= pow2(26));
        }
        if half >= 4 * total_size(sizes@) {
            assert(size <= half);
        }
    }
}

/// A flush that claims nothing ends the drain well, and nothing else does. Each
/// flush counts, and the hundredth is the last.
pub proof fn law_drain_step(drain: &mut Drain, blocks_claimed: usize, next: DrainNext)
    requires
        call_ensures(Drain::flushed, (drain, blocks_claimed), next),
        mut_ref_current(drain).iterations < 100,
    ensures
        next is Done <==> blocks_claimed == 0,
        mut_ref_future(drain).iterations == mut_ref_current(drain).iterations + 1,
        next is NotConverged <==> blocks_claimed > 0 && mut_ref_future(drain).iterations == 100,
        forall|claimed: Seq<usize>|
            claimed.len() == mut_ref_current(drain).iterations && drained(claimed) is Again
                ==> #[trigger] drained(claimed.push(blocks_claimed)) == next,
{
    assert forall|claimed: Seq<usize>|
        claimed.len() == mut_ref_current(drain).iterations && drained(
            claimed,
        ) is Again implies #[trigger] drained(claimed.push(blocks_claimed)) == next by {
        assert(claimed.push(blocks_claimed).drop_last() =~= claimed);
    }
}

/// The union holds no path twice, if the captured paths do not, and adds the others
/// in the order in which they come first.
pub proof fn law_boot_set_has_no_duplicates(paths: Seq<Seq<char>>, more: Seq<Seq<char>>)
    requires
        paths.no_duplicates(),
    ensures
        with_added(paths, more).no_duplicates(),
        more.no_duplicates() && (forall|i: int|
            0 <= i < more.len() ==> !paths.contains(#[trigger] more[i])) ==> with_added(paths, more)
            == paths + more,
    decreases more.len(),
{
    if more.len() > 0 {
        let rest = more.drop_last();
        law_boot_set_has_no_duplicates(paths, rest);
        law_boot_set_is_union(paths, rest);
        if more.no_duplicates() && (forall|i: int|
            0 <= i < more.len() ==> !paths.contains(#[trigger] more[i])) {
            assert forall|i: int, j: int|
                0 <= i < rest.len() && 0 <= j < rest.len() && i != j implies rest[i] != rest[j] by {
                assert(more[i] != more[j]);
            }
            assert forall|i: int| 0 <= i < rest.len() implies !paths.contains(
                #[trigger] rest[i],
            ) by {
                assert(rest[i] == more[i]);
            }
            if rest.contains(more.last()) {
                let i = choose|i: int| 0 <= i < rest.len() && rest[i] == more.last();
                assert(more[i] == more[more.len() - 1]);
            }
            assert(!paths.contains(more[more.len() - 1]));
            assert(with_added(paths, more) =~= paths + more);
        }
    } else {
        assert(with_added(paths, more) =~= paths + more);
    }
}

/// The static closure is part of every boot set. It is all of it without profiling,
/// and where nothing was captured; else the captured paths come first.
pub proof fn law_boot_set(
    profile: bool,
    captured: Option<Vec<String>>,
    derived: Vec<String>,
    paths: Vec<String>,
)
    requires
        call_ensures(derive_boot_set, (profile, captured, derived), paths),
    ensures
        forall|p: Seq<char>| #[trigger]
            texts(derived@).contains(p) ==> texts(paths@).contains(p),
        profile && captured is Some && captured->Some_0@.len() > 0 ==> texts(
            captured->Some_0@,
        ).is_prefix_of(texts(paths@)),
        !profile || captured is None || captured->Some_0@.len() == 0 ==> texts(paths@) == texts(
            derived@,
        ),
{
    if let Some(captured) = captured {
        law_boot_set_is_union(texts(captured@), texts(derived@));
    }
}

/// A boot is observed for as many seconds as the environment says, and for 30 if it
/// says nothing.
pub proof fn law_profile_timeout(var: Option<&str>, timeout: Duration, n: u64)
    requires
        call_ensures(profile_timeout, (var,), timeout),
    ensures
        var is None ==> timeout.secs == 30,
        var matches Some(text) && text@ == decimal(n as int) ==> timeout.secs == n,
        timeout.nanos == 0,
{
    law_decimal_reads_back(n as int, u64::MAX as int);
}

/// The layers are kept in the order in which they were stored, each with its size;
/// the bytes and the layers that were there already add up.
pub proof fn law_layers_are_recorded(
    layers: &mut StoredLayers,
    digest: String,
    size: u64,
    already_present: bool,
    stored_bytes: u64,
)
    requires
        call_ensures(StoredLayers::stored, (layers, digest, size, already_present, stored_bytes), ()),
    ensures
        ({
            let before = mut_ref_current(layers);
            let after = mut_ref_future(layers);
            &&& after.digests@.drop_last() == before.digests@
            &&& after.digests@.last() == digest
            &&& after.sizes@.drop_last() == before.sizes@
            &&& after.sizes@.last() == size
            &&& after.total_stored - before.total_stored == stored_bytes
            &&& already_present ==> after.reused == before.reused + 1
            &&& !already_present ==> after.reused == before.reused
        }),
{
    let before = mut_ref_current(layers);
    let after = mut_ref_future(layers);
    assert(after.digests@.drop_last() =~= before.digests@);
    assert(after.sizes@.drop_last() =~= before.sizes@);
}

/// There is a volume for an image exactly if four times its layers are not above the largest
/// power of two of 64 bits.
pub proof fn law_volume_exists(sizes: Vec<u64>, fits: bool)
    requires
        call_ensures(is_device_size_in_range, (&sizes,), fits),
    ensures
        fits <==> 4 * total_size(sizes@) <= 0x8000_0000_0000_0000,
{
}

/// The names of what an image is kept as and built on.
pub proof fn law_names(name: &str, key: String, oci: String, erofs: String)
    requires
        call_ensures(base_manifest_key, (name,), key),
        call_ensures(oci_device_name, (name,), oci),
        call_ensures(erofs_device_name, (name,), erofs),
    ensures
        key@ == "bases/"@ + name@,
        oci@ == "bless-oci-"@ + name@,
        erofs@ == "bless-erofs-"@ + name@,
{
}

/// Paths are added behind those that are there, and none that is there is added again.
pub proof fn law_paths_are_added(paths: &mut Vec<String>, more: Vec<String>, p: Seq<char>)
    requires
        call_ensures(add_paths, (paths, &more), ()),
    ensures
        texts(mut_ref_current(paths)@).is_prefix_of(texts(mut_ref_future(paths)@)),
        texts(mut_ref_future(paths)@).contains(p) <==> texts(mut_ref_current(paths)@).contains(p)
            || texts(more@).contains(p),
        texts(mut_ref_current(paths)@).no_duplicates() ==> texts(
            mut_ref_future(paths)@,
        ).no_duplicates(),
{
    law_boot_set_is_union(texts(mut_ref_current(paths)@), texts(more@));
    if texts(mut_ref_current(paths)@).no_duplicates() {
        law_boot_set_has_no_duplicates(texts(mut_ref_current(paths)@), texts(more@));
    }
}

/// The directory that was asked for is used, whatever else there is; without one, `/var/tmp` if
/// it can be used. A boot set without extent is not prefetched.
pub proof fn law_choices(
    workdir: Option<String>,
    var_tmp_usable: bool,
    dir: ScratchDir,
    prefetch_len: u64,
    extent: Option<u64>,
)
    requires
        call_ensures(bless_scratch_dir, (workdir, var_tmp_usable), dir),
        call_ensures(prefetch_extent, (prefetch_len,), extent),
    ensures
        workdir matches Some(given) ==> dir == ScratchDir::Given(given),
        workdir is None ==> (dir is VarTmp <==> var_tmp_usable),
        workdir is None ==> (dir is SystemTemp <==> !var_tmp_usable),
        extent is None <==> prefetch_len == 0,
        extent matches Some(n) ==> n == prefetch_len,
{
}

} // verus!
