//! Pushing a volume to an OCI registry.

use vstd::prelude::*;
use vstd::string::StringExecFns;
use crate::cli::bless::BLOCK_SIZE;
use crate::text::chars_of;
use crate::write_cache::config::WriteCacheConfig;

verus! {

/// A text with every `from` replaced by `to`.
pub open spec fn replaced(s: Seq<char>, from: char, to: char) -> Seq<char> {
    s.map_values(
        |c: char|
            if c == from {
                to
            } else {
                c
            },
    )
}

/// The device that a manifest is read through: "push-" and the name of the
/// manifest, with hyphens for slashes.
pub fn push_device_name(manifest_name: &str) -> (device: String)
    ensures
        device@ == "push-"@ + replaced(manifest_name@, '/', '-'),
{
    let mut device = String::from_str("push-");
    let chars: Vec<char> = chars_of(manifest_name);
    let ghost whole = replaced(manifest_name@, '/', '-');
    let mut i: usize = 0;
    while i < chars.len()
        invariant
            i <= chars@.len(),
            chars@ == manifest_name@,
            whole == replaced(manifest_name@, '/', '-'),
            device@ == "push-"@ + whole.take(i as int),
        decreases chars@.len() - i,
    {
        let c: char = if chars[i] == '/' {
            '-'
        } else {
            chars[i]
        };
        device.push(c);
        proof {
            assert(whole.take(i + 1) =~= whole.take(i as int).push(whole[i as int]));
            assert(device@ =~= "push-"@ + whole.take(i + 1));
        }
        i = i + 1;
    }
    assert(whole.take(i as int) =~= whole);
    device
}

/// The cache that a manifest is read through.
pub fn push_cache_config(cache_dir: String, manifest_name: &str, device_size: u64) -> (config:
    WriteCacheConfig)
    ensures
        config.cache_dir == cache_dir,
        config.device_name@ == "push-"@ + replaced(manifest_name@, '/', '-'),
        config.device_size == device_size,
        config.block_size == BLOCK_SIZE,
        !config.wal_sync,
{
    WriteCacheConfig {
        cache_dir,
        device_name: push_device_name(manifest_name),
        device_size,
        block_size: BLOCK_SIZE as usize,
        wal_sync: false,
    }
}

/// The device that a manifest is read through has no slash in its name, so that its
/// files stand in the cache directory itself, and everything else of the name of
/// the manifest.
pub proof fn law_device_names_have_no_slash(manifest_name: &str, device: String)
    requires
        call_ensures(push_device_name, (manifest_name,), device),
    ensures
        "push-"@.is_prefix_of(device@),
        device@.len() == 5 + manifest_name@.len(),
        !device@.contains('/'),
        forall|i: int|
            0 <= i < manifest_name@.len() && (#[trigger] manifest_name@[i]) != '/' ==> device@[5
                + i] == manifest_name@[i],
        forall|i: int|
            0 <= i < manifest_name@.len() && (#[trigger] manifest_name@[i]) == '/' ==> device@[5
                + i] == '-',
{
    reveal_strlit("push-");
    let whole = replaced(manifest_name@, '/', '-');
    assert(device@.subrange(0, 5) =~= "push-"@);
    assert forall|i: int| 0 <= i < manifest_name@.len() implies device@[5 + i]
        == #[trigger] whole[i] by {}
    if device@.contains('/') {
        let i = choose|i: int| 0 <= i < device@.len() && device@[i] == '/';
        if i >= 5 {
            assert(device@[i] == whole[i - 5]);
        }
    }
}

/// The cache that a manifest is read through lies in the given directory, has the size of the
/// volume and blocks of 128 KiB, and does not sync its log.
pub proof fn law_push_cache(
    cache_dir: String,
    manifest_name: &str,
    device_size: u64,
    config: WriteCacheConfig,
)
    requires
        call_ensures(push_cache_config, (cache_dir, manifest_name, device_size), config),
    ensures
        config.cache_dir == cache_dir,
        config.device_size == device_size,
        config.block_size == 131_072,
        !config.wal_sync,
        config.device_name@.len() == "push-"@.len() + manifest_name@.len(),
{
}

} // verus!
