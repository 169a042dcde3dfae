//! The commands: what they are asked, and what they decide.

use vstd::prelude::*;
use vstd::string::StringExecFns;

pub mod bless;
pub mod handoff;
pub mod profile;
pub mod push;
pub mod server;

verus! {

/// High-performance S3-backed block storage.
pub struct Cli {
    pub command: Commands,
}

/// The commands of the program.
#[allow(inconsistent_fields)]
pub enum Commands {
    /// Generate a default configuration file.
    Init { path: String },
    /// Run the NBD block device server.
    Run { config: String },
    /// Bless a disk image into a content-addressed base image.
    Bless {
        /// Path to raw disk image file (mutually exclusive with `oci`).
        image: Option<String>,
        /// OCI image reference (mutually exclusive with `image`).
        oci: Option<String>,
        /// Store OCI layers as separate content-addressed artifacts.
        layered: bool,
        /// Build the merged image as read-only EROFS instead of ext4.
        erofs: bool,
        /// Capture the boot working set by running the image once.
        profile: bool,
        /// Base image name.
        name: String,
        /// S3 prefix (export namespace) to write the blessed image into.
        s3_prefix: String,
        config: String,
    },
    /// Push a volume to an OCI registry as a container image.
    Push {
        /// S3 manifest to export.
        manifest: String,
        /// Target OCI image reference.
        image: String,
        /// S3 prefix (export namespace) where the manifest lives.
        s3_prefix: String,
        config: String,
        /// Base manifest for incremental push.
        base_manifest: Option<String>,
    },
    /// Trigger a graceful zero-downtime handoff against a running daemon.
    Handoff {
        /// Path to the daemon's handoff control socket.
        socket: String,
        /// Spawn a successor that warms up and then aborts cleanly.
        dry_run: bool,
    },
    /// Run garbage collection to clean up orphaned packs in S3.
    Gc {
        config: String,
        /// Report what would be deleted without deleting.
        dry_run: bool,
        /// Grace period before deleting dead packs.
        grace_period: String,
        /// Maximum number of packs to delete per run.
        max_deletes: usize,
        /// Path to GC state file for grace period tracking.
        state_file: String,
    },
    /// Profile a blessed base's boot working set.
    Profile {
        /// Base name to profile.
        name: String,
        /// S3 prefix (export namespace) the base lives in.
        s3_prefix: String,
        config: String,
        /// Isolation backend override.
        sandbox: Option<String>,
        /// Command to profile.
        cmd: Option<String>,
        /// Hard per-run timeout in seconds.
        timeout: u64,
        /// Filesystem type of the base.
        fs_type: Option<String>,
        /// Number of boot runs to rank-merge.
        runs: u32,
        /// Re-profile even if the base is unchanged.
        force: bool,
        /// Mark the image untrusted.
        untrusted: bool,
        /// Cap on captured blocks.
        max_blocks: usize,
    },
}

/// Where an export stands in the object store.
pub open spec fn export_path_text(db_path: Seq<char>, s3_prefix: Seq<char>) -> Seq<char> {
    db_path + "/exports/"@ + s3_prefix
}

/// Where an export stands in the object store.
pub fn export_path(db_path: &str, s3_prefix: &str) -> (path: String)
    ensures
        path@ == export_path_text(db_path@, s3_prefix@),
{
    join3(db_path, "/exports/", s3_prefix)
}

/// Three texts, one after the other.
fn join3(a: &str, b: &str, c: &str) -> (text: String)
    ensures
        text@ == a@ + b@ + c@,
{
    let mut text = String::new();
    text.append(a);
    text.append(b);
    text.append(c);
    assert(text@ =~= a@ + b@ + c@);
    text
}

/// An export lies below the exports of its database, and different exports of a database lie in
/// different places.
pub proof fn law_export_paths(db_path: &str, a: &str, b: &str, path: String, other: String)
    requires
        call_ensures(export_path, (db_path, a), path),
        call_ensures(export_path, (db_path, b), other),
    ensures
        path@ == db_path@ + "/exports/"@ + a@,
        path@ == other@ ==> a@ == b@,
{
    let n = db_path@.len() + "/exports/"@.len();
    assert(path@.skip(n as int) =~= a@);
    assert(other@.skip(n as int) =~= b@);
}

} // verus!
