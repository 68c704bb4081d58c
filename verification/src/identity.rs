//! Stable file identities that survive renames and moves within a volume:
//! device and inode, plus size, modification time and an optional fast
//! content-sample hash.  Fetching metadata is the caller's business; the
//! identity itself is plain data.

use vstd::prelude::*;

verus! {

/// File identity configuration.
#[derive(Debug, Clone)]
pub struct FileIdentityConfig {
    /// Whether to hash a content sample.
    pub use_fast_hash: bool,
    /// Size of the content sample to hash, in bytes.
    pub hash_sample_size: usize,
}

impl Default for FileIdentityConfig {
    /// Hash an 8 KiB sample.
    fn default() -> (r: FileIdentityConfig)
        ensures
            r.use_fast_hash == true,
            r.hash_sample_size == 8192,
    {
        FileIdentityConfig { use_fast_hash: true, hash_sample_size: 8192 }
    }
}

/// A stable file identity.  The modification time is carried as
/// nanoseconds since the epoch.
#[derive(Debug, Clone, Copy, PartialEq, Eq, Hash)]
pub struct FileIdentity {
    /// Device ID (Unix) or volume ID.
    pub device_id: u64,
    /// Inode number (Unix) or file ID.
    pub inode: u64,
    /// File size in bytes.
    pub size: u64,
    /// Last modification time, nanoseconds since the epoch.
    pub mtime: u64,
    /// Fast rolling hash of a content sample, when one was computed.
    pub content_hash: Option<u64>,
}

/// Two identities denote the same file exactly when device and inode match.
pub open spec fn same_file(a: FileIdentity, b: FileIdentity) -> bool {
    a.device_id == b.device_id && a.inode == b.inode
}

pub const HASH_BASE: u64 = 257;

pub const HASH_MOD: u64 = 1_000_000_007;

/// `HASH_BASE` to the seventh power, reduced mod `HASH_MOD`; the factor a
/// byte leaving the 8-byte window carries.
pub const HASH_POW7: u64 = 13_163_680;

/// The rolling value after the byte at index `i` has been processed: the
/// first eight bytes only accumulate; later steps also retire the byte
/// eight places back.
pub open spec fn roll_at(s: Seq<u8>, i: int) -> int
    decreases i + 1,
{
    if i < 0 {
        0
    } else {
        let pushed = (roll_at(s, i - 1) * HASH_BASE + s[i]) % (HASH_MOD as int);
        if i < 8 {
            pushed
        } else {
            (pushed + HASH_MOD - (s[i - 8] * HASH_POW7 % (HASH_MOD as int))) % (HASH_MOD as int)
        }
    }
}

/// The hash accumulator after the byte at index `i`: the rolling value of
/// the first window, XORed with every later rolling value.
pub open spec fn hash_at(s: Seq<u8>, i: int) -> u64
    decreases i + 1,
{
    if i <= 7 {
        roll_at(s, if s.len() < 8 {
            s.len() - 1
        } else {
            7
        }) as u64
    } else {
        hash_at(s, i - 1) ^ (roll_at(s, i) as u64)
    }
}

/// The fast content hash of a non-empty sample.
pub open spec fn fast_hash_of(s: Seq<u8>) -> u64 {
    hash_at(s, s.len() - 1)
}

impl FileIdentity {
    /// Same file: device and inode match; size, time and content may
    /// differ.
    pub fn is_same_file(&self, other: &FileIdentity) -> (r: bool)
        ensures
            r == same_file(*self, *other),
    {
        self.device_id == other.device_id && self.inode == other.inode
    }

    /// Modified: a different file altogether, or the same file with a
    /// changed size or modification time.
    pub fn is_modified(&self, current: &FileIdentity) -> (r: bool)
        ensures
            r == (!same_file(*self, *current) || self.mtime != current.mtime || self.size
                != current.size),
    {
        !self.is_same_file(current) || self.mtime != current.mtime || self.size != current.size
    }

    /// Whether the sampled content changed; unknown unless both identities
    /// carry a hash.
    pub fn content_changed(&self, current: &FileIdentity) -> (r: Option<bool>)
        ensures
            r == match (self.content_hash, current.content_hash) {
                (Some(a), Some(b)) => Some(a != b),
                _ => None::<bool>,
            },
    {
        match (&self.content_hash, &current.content_hash) {
            (Some(a), Some(b)) => Some(*a != *b),
            _ => None,
        }
    }
}

/// The fast rolling polynomial hash of a content sample; `None` for an
/// empty sample.
pub fn fast_content_hash(sample: &[u8]) -> (r: Option<u64>)
    ensures
        r == if sample@.len() == 0 {
            None::<u64>
        } else {
            Some(fast_hash_of(sample@))
        },
{
    let n = sample.len();
    if n == 0 {
        return None;
    }
    let first: usize = if n < 8 {
        n
    } else {
        8
    };
    let mut rolling: u64 = 0;
    let mut k: usize = 0;
    while k < first
        invariant
            n == sample@.len(),
            first == if n < 8 {
                n as int
            } else {
                8
            },
            k <= first,
            rolling == roll_at(sample@, k - 1),
            rolling < HASH_MOD,
        decreases first - k,
    {
        rolling = (rolling * HASH_BASE + sample[k] as u64) % HASH_MOD;
        k += 1;
    }
    let mut hash: u64 = rolling;
    proof {
        assert(hash == hash_at(sample@, first - 1));
    }
    let mut i: usize = first;
    while i < n
        invariant
            n == sample@.len(),
            8 <= i <= n || (i == n && n < 8),
            first == if n < 8 {
                n as int
            } else {
                8
            },
            i >= first,
            rolling == roll_at(sample@, i - 1),
            rolling < HASH_MOD,
            hash == hash_at(sample@, i - 1),
        decreases n - i,
    {
        let pushed = (rolling * HASH_BASE + sample[i] as u64) % HASH_MOD;
        let retire = (sample[i - 8] as u64) * HASH_POW7 % HASH_MOD;
        rolling = (pushed + HASH_MOD - retire) % HASH_MOD;
        hash = hash ^ rolling;
        i += 1;
    }
    Some(hash)
}

/// The identity law behind rename following: a rename within a volume
/// keeps device and inode, so the fresh identity still names the same
/// file as the one captured before, whatever its size, time or hash.
pub proof fn lemma_rename_keeps_identity(before: FileIdentity, after: FileIdentity)
    requires
        after.device_id == before.device_id,
        after.inode == before.inode,
    ensures
        same_file(after, before),
        same_file(before, after),
{
}

} // verus!
