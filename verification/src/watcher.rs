//! External-change tracking: the watcher's state over watched files and
//! the decisions it takes on each poll result — change classification,
//! conflict construction and conflict resolution.  Polling, threads and
//! queues are the caller's business; every function here takes what the
//! caller observed as plain values.

use vstd::prelude::*;
use crate::identity::FileIdentity;

verus! {

/// `str` equality compares the character sequences; vstd gives the impl no
/// specification of its own.
pub assume_specification[ <str as PartialEq<str>>::eq ](a: &str, b: &str) -> (r: bool)
    ensures
        r == (a@ == b@),
;

/// Errors of file watching.
#[derive(Debug, Clone, PartialEq, Eq)]
pub enum WatcherError {
    Io(String),
    PathError(String),
    WatcherStopped,
    ConflictResolutionFailed(String),
    IdentityError(String),
}

pub type WatcherResult<T> = Result<T, WatcherError>;

/// Configuration for the watcher; times in milliseconds.
#[derive(Debug, Clone)]
pub struct WatcherConfig {
    /// How often to poll for changes.
    pub poll_interval_ms: u64,
    /// How long a change must hold still before it counts.
    pub debounce_delay_ms: u64,
    /// Whether clean buffers reload automatically.
    pub auto_reload: bool,
    /// Snapshots kept per file for three-way merges.
    pub max_snapshots: usize,
}

impl Default for WatcherConfig {
    /// Poll every 500 ms, debounce 100 ms, auto-reload, ten snapshots.
    fn default() -> (r: WatcherConfig)
        ensures
            r.poll_interval_ms == 500,
            r.debounce_delay_ms == 100,
            r.auto_reload == true,
            r.max_snapshots == 10,
    {
        WatcherConfig {
            poll_interval_ms: 500,
            debounce_delay_ms: 100,
            auto_reload: true,
            max_snapshots: 10,
        }
    }
}

/// Kinds of file change.
#[derive(Debug, Clone, Copy, PartialEq, Eq, Structural)]
pub enum ChangeType {
    Modified,
    Created,
    Deleted,
    Renamed,
}

/// One observed file change; the timestamp is seconds since the epoch.
#[derive(Debug, Clone)]
pub struct FileChange {
    pub path: String,
    pub change_type: ChangeType,
    pub timestamp: u64,
    pub old_identity: Option<FileIdentity>,
    pub new_identity: Option<FileIdentity>,
}

/// A snapshot of disk state for three-way merging.
#[derive(Debug, Clone)]
pub struct FileSnapshot {
    pub content: Vec<u8>,
    pub identity: FileIdentity,
    pub timestamp: u64,
}

/// Everything tracked about one watched file.
#[derive(Debug, Clone)]
pub struct FileState {
    pub buffer_content: Vec<u8>,
    pub disk_content: Vec<u8>,
    pub base_content: Vec<u8>,
    pub identity: FileIdentity,
    pub is_dirty: bool,
    pub last_modified: u64,
    pub snapshots: Vec<FileSnapshot>,
}

/// A three-way merge conflict: the buffer, the disk, and the common base.
#[derive(Debug, Clone)]
pub struct MergeConflict {
    pub file_path: String,
    pub buffer_content: Vec<u8>,
    pub disk_content: Vec<u8>,
    pub base_content: Vec<u8>,
    pub buffer_identity: FileIdentity,
    pub disk_identity: FileIdentity,
    pub base_identity: FileIdentity,
}

/// How to resolve a merge conflict.
#[derive(Debug, Clone, Copy, PartialEq, Eq, Structural)]
pub enum ConflictResolution {
    /// Overwrite the disk with the buffer.
    UseBuffer,
    /// Keep the disk; the buffer reloads.
    UseDisk,
    /// Keep the disk and park the buffer in a sibling file.
    KeepBoth,
    /// Hand the conflict back unresolved.
    Manual,
}

/// Where a resolution asks the caller to write.
#[derive(Debug, Clone, Copy, PartialEq, Eq, Structural)]
pub enum WriteTarget {
    /// The conflicted file itself.
    Original,
    /// A sibling file that parks the buffer content.
    BufferSibling,
}

/// What a resolution decided: the content the buffer should now hold, and
/// an optional write the caller must perform.
#[derive(Debug)]
pub struct ResolutionOutcome {
    pub content: Vec<u8>,
    pub write: Option<(WriteTarget, Vec<u8>)>,
}

/// Events the watcher emits.
#[derive(Debug, Clone)]
pub enum WatchEvent {
    FileChanged(FileChange),
    FileDeleted(String),
    FileCreated(String),
    FileRenamed { from: String, to: String },
    ConflictDetected(MergeConflict),
    AutoReloaded { path: String, content: Vec<u8> },
}

/// First-match lookup in the watch list.
pub open spec fn lookup(v: Seq<(String, FileState)>, k: Seq<char>) -> Option<FileState>
    decreases v.len(),
{
    if v.len() == 0 {
        None
    } else if v.first().0@ == k {
        Some(v.first().1)
    } else {
        lookup(v.drop_first(), k)
    }
}

proof fn lemma_lookup_push(v: Seq<(String, FileState)>, pair: (String, FileState), k: Seq<char>)
    ensures
        lookup(v.push(pair), k) == if lookup(v, k) is Some {
            lookup(v, k)
        } else if pair.0@ == k {
            Some(pair.1)
        } else {
            None::<FileState>
        },
    decreases v.len(),
{
    if v.len() == 0 {
        assert(v.push(pair).first() == pair);
        assert(v.push(pair).drop_first() =~= Seq::<(String, FileState)>::empty());
        assert(lookup(Seq::<(String, FileState)>::empty(), k) is None);
        assert(lookup(v, k) is None);
    } else {
        lemma_lookup_push(v.drop_first(), pair, k);
        assert(v.push(pair).drop_first() =~= v.drop_first().push(pair));
        assert(v.push(pair).first() == v.first());
    }
}

proof fn lemma_lookup_none_iff(v: Seq<(String, FileState)>, k: Seq<char>)
    ensures
        (lookup(v, k) is None) <==> (forall|i: int| 0 <= i < v.len() ==> #[trigger] v[i].0@ != k),
    decreases v.len(),
{
    if v.len() > 0 {
        lemma_lookup_none_iff(v.drop_first(), k);
        assert(forall|i: int| 0 <= i < v.drop_first().len() ==> v.drop_first()[i] == v[i + 1]);
        if v.first().0@ != k && (lookup(v.drop_first(), k) is None) {
            assert forall|i: int| 0 <= i < v.len() implies #[trigger] v[i].0@ != k by {
                if i > 0 {
                    assert(v.drop_first()[i - 1] == v[i]);
                }
            }
        }
    }
}

/// The watcher: the watched files and their states, and whether the
/// polling worker should keep going.
pub struct FileWatcher {
    config: WatcherConfig,
    watched: Vec<(String, FileState)>,
    is_running: bool,
}

impl FileWatcher {
    /// The watched files, as a first-match association list.
    pub closed spec fn watched_view(&self) -> Seq<(String, FileState)> {
        self.watched@
    }

    pub closed spec fn spec_running(&self) -> bool {
        self.is_running
    }

    pub closed spec fn spec_config(&self) -> WatcherConfig {
        self.config
    }

    /// The watch list holds each path at most once.
    pub closed spec fn wf(&self) -> bool {
        forall|i: int, j: int|
            0 <= i < j < self.watched@.len() ==> #[trigger] self.watched@[i].0@
                != #[trigger] self.watched@[j].0@
    }

    pub fn new(config: WatcherConfig) -> (r: FileWatcher)
        ensures
            r.wf(),
            r.watched_view().len() == 0,
            !r.spec_running(),
            r.spec_config() == config,
    {
        FileWatcher { config, watched: Vec::new(), is_running: false }
    }

    /// Let the polling worker proceed.
    pub fn start(&mut self)
        ensures
            final(self).spec_running(),
            final(self).watched_view() == old(self).watched_view(),
            final(self).spec_config() == old(self).spec_config(),
            final(self).wf() == old(self).wf(),
    {
        self.is_running = true;
        proof {
            assert(self.watched@ == old(self).watched@);
            assert(self.wf() == old(self).wf());
        }
    }

    /// Ask the polling worker to stop at its next wakeup.
    pub fn stop(&mut self)
        ensures
            !final(self).spec_running(),
            final(self).watched_view() == old(self).watched_view(),
            final(self).spec_config() == old(self).spec_config(),
            final(self).wf() == old(self).wf(),
    {
        self.is_running = false;
        proof {
            assert(self.watched@ == old(self).watched@);
            assert(self.wf() == old(self).wf());
        }
    }

    /// Whether the polling worker should keep going.
    pub fn is_running(&self) -> (r: bool)
        ensures
            r == self.spec_running(),
    {
        self.is_running
    }

    /// Find the first entry for a path.
    fn find_entry(&self, path: &str) -> (r: Option<usize>)
        ensures
            match r {
                Some(i) => {
                    &&& i < self.watched_view().len()
                    &&& self.watched_view()[i as int].0@ == path@
                    &&& forall|j: int|
                        0 <= j < i ==> #[trigger] self.watched_view()[j].0@ != path@
                    &&& lookup(self.watched_view(), path@) == Some(
                        self.watched_view()[i as int].1,
                    )
                },
                None => lookup(self.watched_view(), path@) is None,
            },
    {
        let n = self.watched.len();
        let mut i: usize = 0;
        proof {
            assert(self.watched@.skip(0) =~= self.watched@);
        }
        while i < n
            invariant
                n == self.watched@.len(),
                i <= n,
                forall|j: int| 0 <= j < i ==> #[trigger] self.watched@[j].0@ != path@,
                lookup(self.watched@, path@) == lookup(self.watched@.skip(i as int), path@),
            decreases n - i,
        {
            let ghost rest = self.watched@.skip(i as int);
            proof {
                assert(rest.first() == self.watched@[i as int]);
                assert(rest.drop_first() =~= self.watched@.skip(i + 1));
            }
            let entry: &(String, FileState) = &self.watched[i];
            if entry.0.as_str().eq(path) {
                return Some(i);
            }
            i += 1;
        }
        proof {
            assert(self.watched@.skip(n as int) =~= Seq::<(String, FileState)>::empty());
        }
        None
    }

    /// Track a file: the given content is buffer, disk and base alike, and
    /// the buffer starts clean.
    pub fn watch_file(
        &mut self,
        path: &str,
        initial_content: &[u8],
        initial_identity: FileIdentity,
        now: u64,
    ) -> (r: WatcherResult<()>)
        requires
            old(self).wf(),
        ensures
            r is Ok,
            final(self).wf(),
            ({
                let looked = lookup(final(self).watched_view(), path@);
                &&& looked is Some
                &&& ({
                    let st = looked.unwrap();
                    &&& st.buffer_content@ == initial_content@
                    &&& st.disk_content@ == initial_content@
                    &&& st.base_content@ == initial_content@
                    &&& st.identity == initial_identity
                    &&& !st.is_dirty
                    &&& st.last_modified == now
                    &&& st.snapshots@.len() == 0
                })
            }),
            forall|k: Seq<char>|
                k != path@ ==> #[trigger] lookup(final(self).watched_view(), k) == lookup(
                    old(self).watched_view(),
                    k,
                ),
            final(self).spec_running() == old(self).spec_running(),
    {
        let state = FileState {
            buffer_content: vstd::slice::slice_to_vec(initial_content),
            disk_content: vstd::slice::slice_to_vec(initial_content),
            base_content: vstd::slice::slice_to_vec(initial_content),
            identity: initial_identity,
            is_dirty: false,
            last_modified: now,
            snapshots: Vec::new(),
        };
        let found = self.find_entry(path);
        match found {
            Some(i) => {
                let ghost v0 = self.watched@;
                let key = self.watched[i].0.clone();
                proof {
                    assert(key@ == v0[i as int].0@);
                }
                self.watched.set(i, (key, state));
                proof {
                    assert forall|k: Seq<char>| true implies #[trigger] lookup(self.watched@, k)
                        == (if v0[i as int].0@ == k {
                        Some(state)
                    } else {
                        lookup(v0, k)
                    }) by {
                        lemma_lookup_update_like(v0, i as int, key, state, k);
                    }
                    assert(forall|j: int|
                        0 <= j < self.watched@.len() ==> #[trigger] self.watched@[j].0@
                            == v0[j].0@);
                }
                Ok(())
            },
            None => {
                let ghost v0 = self.watched@;
                let key: String = path.to_owned();
                self.watched.push((key, state));
                proof {
                    assert forall|k: Seq<char>| true implies #[trigger] lookup(self.watched@, k)
                        == (if lookup(v0, k) is Some {
                        lookup(v0, k)
                    } else if path@ == k {
                        Some(state)
                    } else {
                        None::<FileState>
                    }) by {
                        lemma_lookup_push(v0, (key, state), k);
                    }
                    lemma_lookup_none_iff(v0, path@);
                    assert(forall|j: int|
                        0 <= j < v0.len() ==> #[trigger] self.watched@[j] == v0[j]);
                }
                Ok(())
            },
        }
    }

    /// Record an edit: the buffer content changes, the buffer is dirty,
    /// and the current disk state is snapshotted for later merges (keeping
    /// at most `max_snapshots`).  An unwatched path is left alone.
    pub fn update_buffer(&mut self, path: &str, content: &[u8], now: u64) -> (r: WatcherResult<()>)
        requires
            old(self).wf(),
        ensures
            r is Ok,
            final(self).wf(),
            ({
                match lookup(old(self).watched_view(), path@) {
                    None => final(self).watched_view() == old(self).watched_view(),
                    Some(st0) => {
                        let looked = lookup(final(self).watched_view(), path@);
                        &&& looked is Some
                        &&& ({
                            let st = looked.unwrap();
                            &&& st.buffer_content@ == content@
                            &&& st.is_dirty
                            &&& st.disk_content@ == st0.disk_content@
                            &&& st.base_content@ == st0.base_content@
                            &&& st.identity == st0.identity
                            &&& st.snapshots@.len() == if st0.snapshots@.len() + 1 > old(
                                self,
                            ).spec_config().max_snapshots {
                                st0.snapshots@.len() as int
                            } else {
                                st0.snapshots@.len() + 1 as int
                            }
                            &&& (st.snapshots@.len() > 0 ==> st.snapshots@.last().content@
                                == st0.disk_content@ && st.snapshots@.last().identity
                                == st0.identity)
                        })
                    },
                }
            }),
            forall|k: Seq<char>|
                k != path@ ==> #[trigger] lookup(final(self).watched_view(), k) == lookup(
                    old(self).watched_view(),
                    k,
                ),
    {
        let found = self.find_entry(path);
        match found {
            None => Ok(()),
            Some(i) => {
                let ghost v0 = self.watched@;
                let ghost st0 = self.watched@[i as int].1;
                let key = self.watched[i].0.clone();
                proof {
                    assert(key@ == v0[i as int].0@);
                }
                let entry: &(String, FileState) = &self.watched[i];
                let disk = clone_bytes(&entry.1.disk_content);
                let base = clone_bytes(&entry.1.base_content);
                let identity = entry.1.identity;
                let last_modified = entry.1.last_modified;
                let mut snaps = clone_snapshots(&entry.1.snapshots);
                let snapshot = FileSnapshot {
                    content: clone_bytes(&entry.1.disk_content),
                    identity,
                    timestamp: now,
                };
                snaps.push(snapshot);
                let ghost pushed = snaps@;
                if snaps.len() > self.config.max_snapshots {
                    snaps.remove(0);
                    proof {
                        assert(snaps@ =~= pushed.drop_first());
                        if snaps@.len() > 0 {
                            assert(snaps@.last() == pushed.last());
                        }
                    }
                }
                let st = FileState {
                    buffer_content: vstd::slice::slice_to_vec(content),
                    disk_content: disk,
                    base_content: base,
                    identity,
                    is_dirty: true,
                    last_modified,
                    snapshots: snaps,
                };
                let ghost st_g = st;
                self.watched.set(i, (key, st));
                proof {
                    assert forall|k: Seq<char>| true implies #[trigger] lookup(self.watched@, k)
                        == (if v0[i as int].0@ == k {
                        Some(st_g)
                    } else {
                        lookup(v0, k)
                    }) by {
                        lemma_lookup_update_like(v0, i as int, key, st_g, k);
                    }
                    assert(forall|j: int|
                        0 <= j < self.watched@.len() ==> #[trigger] self.watched@[j].0@
                            == v0[j].0@);
                }
                Ok(())
            },
        }
    }

    /// Classify a poll of a watched file, given the identity the caller
    /// just fetched (or failed to fetch): a missing file is a deletion, a
    /// different identity is a modification, anything else is no change.
    pub fn check_external_changes(
        &self,
        path: &str,
        current: Option<&FileIdentity>,
        now: u64,
    ) -> (r: WatcherResult<Option<FileChange>>)
        ensures
            match r {
                Ok(change) => {
                    match lookup(self.watched_view(), path@) {
                        None => change is None,
                        Some(st) => match current {
                            None => {
                                &&& change is Some
                                &&& ({
                                    let c = change.unwrap();
                                    &&& c.change_type == ChangeType::Deleted
                                    &&& c.path@ == path@
                                    &&& c.timestamp == now
                                    &&& c.old_identity == Some(st.identity)
                                    &&& c.new_identity is None
                                })
                            },
                            Some(cur) => {
                                if cur == st.identity {
                                    change is None
                                } else {
                                    &&& change is Some
                                    &&& ({
                                        let c = change.unwrap();
                                        &&& c.change_type == ChangeType::Modified
                                        &&& c.path@ == path@
                                        &&& c.timestamp == now
                                        &&& c.old_identity == Some(st.identity)
                                        &&& c.new_identity == Some(*cur)
                                    })
                                }
                            },
                        },
                    }
                },
                Err(_) => false,
            },
    {
        let found = self.find_entry(path);
        match found {
            None => Ok(None),
            Some(i) => {
                let entry: &(String, FileState) = &self.watched[i];
                let st = &entry.1;
                match current {
                    None => Ok(
                        Some(
                            FileChange {
                                path: path.to_owned(),
                                change_type: ChangeType::Deleted,
                                timestamp: now,
                                old_identity: Some(st.identity),
                                new_identity: None,
                            },
                        ),
                    ),
                    Some(cur) => {
                        if identity_eq(cur, &st.identity) {
                            Ok(None)
                        } else {
                            Ok(
                                Some(
                                    FileChange {
                                        path: path.to_owned(),
                                        change_type: ChangeType::Modified,
                                        timestamp: now,
                                        old_identity: Some(st.identity),
                                        new_identity: Some(*cur),
                                    },
                                ),
                            )
                        }
                    },
                }
            },
        }
    }

    /// Follow a rename: when the freshly fetched identity of the new path
    /// equals the watched identity of the old path, the very state the old
    /// path held — buffer, base, snapshots and all — moves to the new
    /// path.  Either way the old entry is gone.
    pub fn follow_rename(
        &mut self,
        old_path: &str,
        new_path: &str,
        new_identity: Option<&FileIdentity>,
    ) -> (r: WatcherResult<bool>)
        requires
            old(self).wf(),
        ensures
            final(self).wf(),
            match r {
                Ok(moved) => {
                    match lookup(old(self).watched_view(), old_path@) {
                        None => !moved && final(self).watched_view() == old(self).watched_view(),
                        Some(st) => {
                            &&& moved == (new_identity is Some && *new_identity.unwrap()
                                == st.identity)
                            &&& (moved ==> lookup(final(self).watched_view(), new_path@) == Some(
                                st,
                            ))
                            &&& (moved && old_path@ != new_path@ ==> lookup(
                                final(self).watched_view(),
                                old_path@,
                            ) is None)
                            &&& (!moved ==> lookup(final(self).watched_view(), old_path@) is None)
                        },
                    }
                },
                Err(_) => false,
            },
    {
        let found = self.find_entry(old_path);
        match found {
            None => Ok(false),
            Some(i) => {
                let ghost v0 = self.watched@;
                let entry = self.watched.remove(i);
                let st = entry.1;
                let ghost st_g = st;
                proof {
                    assert(self.watched@ == v0.remove(i as int));
                    assert forall|a: int, b: int|
                        0 <= a < b < self.watched@.len() implies #[trigger] self.watched@[a].0@
                        != #[trigger] self.watched@[b].0@ by {
                        if b < i {
                            assert(self.watched@[a] == v0[a] && self.watched@[b] == v0[b]);
                        } else if a < i {
                            assert(self.watched@[a] == v0[a] && self.watched@[b] == v0[b + 1]);
                        } else {
                            assert(self.watched@[a] == v0[a + 1] && self.watched@[b] == v0[b + 1]);
                        }
                    }
                    assert forall|j: int| 0 <= j < self.watched@.len() implies #[trigger] self
                        .watched@[j].0@ != old_path@ by {
                        if j < i {
                            assert(self.watched@[j] == v0[j]);
                        } else {
                            assert(self.watched@[j] == v0[j + 1]);
                            assert(v0[j + 1].0@ != v0[i as int].0@);
                        }
                    }
                    lemma_lookup_none_iff(self.watched@, old_path@);
                }
                match new_identity {
                    None => Ok(false),
                    Some(nid) => {
                        if identity_eq(nid, &st.identity) {
                            let ghost v1 = self.watched@;
                            let slot = self.find_entry(new_path);
                            match slot {
                                Some(i2) => {
                                    let key = self.watched[i2].0.clone();
                                    proof {
                                        assert(key@ == v1[i2 as int].0@);
                                    }
                                    self.watched.set(i2, (key, st));
                                    proof {
                                        assert forall|k: Seq<char>| true implies #[trigger] lookup(
                                            self.watched@,
                                            k,
                                        ) == (if v1[i2 as int].0@ == k {
                                            Some(st_g)
                                        } else {
                                            lookup(v1, k)
                                        }) by {
                                            lemma_lookup_update_like(v1, i2 as int, key, st_g, k);
                                        }
                                        assert(forall|j: int|
                                            0 <= j < self.watched@.len()
                                                ==> #[trigger] self.watched@[j].0@ == v1[j].0@);
                                    }
                                    Ok(true)
                                },
                                None => {
                                    let key: String = new_path.to_owned();
                                    self.watched.push((key, st));
                                    proof {
                                        assert forall|k: Seq<char>| true implies #[trigger] lookup(
                                            self.watched@,
                                            k,
                                        ) == (if lookup(v1, k) is Some {
                                            lookup(v1, k)
                                        } else if new_path@ == k {
                                            Some(st_g)
                                        } else {
                                            None::<FileState>
                                        }) by {
                                            lemma_lookup_push(v1, (key, st_g), k);
                                        }
                                        lemma_lookup_none_iff(v1, new_path@);
                                        assert(forall|j: int|
                                            0 <= j < v1.len() ==> #[trigger] self.watched@[j]
                                                == v1[j]);
                                    }
                                    Ok(true)
                                },
                            }
                        } else {
                            Ok(false)
                        }
                    },
                }
            },
        }
    }

    /// Decide what a settled modification of a watched file leads to: a
    /// dirty buffer surfaces a conflict; a clean buffer reloads when
    /// auto-reload is on and is left alone otherwise; an unwatched path is
    /// ignored.
    pub fn classify_modified(&self, path: &str) -> (r: ModifiedDisposition)
        ensures
            r == match lookup(self.watched_view(), path@) {
                None => ModifiedDisposition::Ignore,
                Some(st) => if st.is_dirty {
                    ModifiedDisposition::RaiseConflict
                } else if self.spec_config().auto_reload {
                    ModifiedDisposition::AutoReload
                } else {
                    ModifiedDisposition::Ignore
                },
            },
    {
        let found = self.find_entry(path);
        match found {
            None => ModifiedDisposition::Ignore,
            Some(i) => {
                let entry: &(String, FileState) = &self.watched[i];
                if entry.1.is_dirty {
                    ModifiedDisposition::RaiseConflict
                } else if self.config.auto_reload {
                    ModifiedDisposition::AutoReload
                } else {
                    ModifiedDisposition::Ignore
                }
            },
        }
    }

    /// Resolve a merge conflict: what the buffer should hold afterwards,
    /// and what, if anything, the caller must write where.
    pub fn resolve_conflict(
        &self,
        conflict: &MergeConflict,
        resolution: ConflictResolution,
    ) -> (r: WatcherResult<ResolutionOutcome>)
        ensures
            match resolution {
                ConflictResolution::UseBuffer => match r {
                    Ok(o) => {
                        &&& o.content@ == conflict.buffer_content@
                        &&& o.write is Some
                        &&& o.write.unwrap().0 == WriteTarget::Original
                        &&& o.write.unwrap().1@ == conflict.buffer_content@
                    },
                    Err(_) => false,
                },
                ConflictResolution::UseDisk => match r {
                    Ok(o) => o.content@ == conflict.disk_content@ && o.write is None,
                    Err(_) => false,
                },
                ConflictResolution::KeepBoth => match r {
                    Ok(o) => {
                        &&& o.content@ == conflict.disk_content@
                        &&& o.write is Some
                        &&& o.write.unwrap().0 == WriteTarget::BufferSibling
                        &&& o.write.unwrap().1@ == conflict.buffer_content@
                    },
                    Err(_) => false,
                },
                ConflictResolution::Manual => match r {
                    Ok(_) => false,
                    Err(e) => e is ConflictResolutionFailed,
                },
            },
    {
        match resolution {
            ConflictResolution::UseBuffer => {
                let content = clone_bytes(&conflict.buffer_content);
                let w = clone_bytes(&conflict.buffer_content);
                Ok(ResolutionOutcome { content, write: Some((WriteTarget::Original, w)) })
            },
            ConflictResolution::UseDisk => Ok(
                ResolutionOutcome { content: clone_bytes(&conflict.disk_content), write: None },
            ),
            ConflictResolution::KeepBoth => Ok(
                ResolutionOutcome {
                    content: clone_bytes(&conflict.disk_content),
                    write: Some((WriteTarget::BufferSibling, clone_bytes(&conflict.buffer_content))),
                },
            ),
            ConflictResolution::Manual => Err(
                WatcherError::ConflictResolutionFailed("manual resolution required".to_string()),
            ),
        }
    }

    /// Build the three-way conflict for a dirty buffer whose file changed
    /// on disk, from the disk bytes and identity the caller just read.
    /// No conflict arises for a clean buffer, or when the disk agrees with
    /// the buffer or with the merge base.
    pub fn handle_conflict(
        &self,
        path: &str,
        buffer_content: &[u8],
        disk_content: &[u8],
        disk_identity: &FileIdentity,
    ) -> (r: WatcherResult<Option<MergeConflict>>)
        ensures
            match r {
                Ok(c) => {
                    match lookup(self.watched_view(), path@) {
                        None => c is None,
                        Some(st) => {
                            let base = if st.snapshots@.len() > 0 {
                                st.snapshots@.last().content@
                            } else {
                                st.base_content@
                            };
                            if st.is_dirty && buffer_content@ != disk_content@ && disk_content@
                                != base {
                                &&& c is Some
                                &&& ({
                                    let cf = c.unwrap();
                                    &&& cf.file_path@ == path@
                                    &&& cf.buffer_content@ == buffer_content@
                                    &&& cf.disk_content@ == disk_content@
                                    &&& cf.base_content@ == base
                                    &&& cf.buffer_identity == st.identity
                                    &&& cf.disk_identity == *disk_identity
                                })
                            } else {
                                c is None
                            }
                        },
                    }
                },
                Err(_) => false,
            },
    {
        let found = self.find_entry(path);
        match found {
            None => Ok(None),
            Some(i) => {
                let entry: &(String, FileState) = &self.watched[i];
                let st = &entry.1;
                if !st.is_dirty {
                    return Ok(None);
                }
                let n_snaps = st.snapshots.len();
                let base: Vec<u8>;
                let base_identity: FileIdentity;
                if n_snaps > 0 {
                    let snap: &FileSnapshot = &st.snapshots[n_snaps - 1];
                    base = clone_bytes(&snap.content);
                    base_identity = snap.identity;
                    proof {
                        assert(st.snapshots@.last() == st.snapshots@[n_snaps - 1]);
                    }
                } else {
                    base = clone_bytes(&st.base_content);
                    base_identity = st.identity;
                }
                let buf_eq = bytes_eq(buffer_content, disk_content);
                let base_eq = bytes_eq(disk_content, base.as_slice());
                if !buf_eq && !base_eq {
                    Ok(
                        Some(
                            MergeConflict {
                                file_path: path.to_owned(),
                                buffer_content: vstd::slice::slice_to_vec(buffer_content),
                                disk_content: vstd::slice::slice_to_vec(disk_content),
                                base_content: base,
                                buffer_identity: st.identity,
                                disk_identity: *disk_identity,
                                base_identity,
                            },
                        ),
                    )
                } else {
                    Ok(None)
                }
            },
        }
    }
}


/// The event a settled change earns: a modification carries the whole
/// change record; creations, deletions and renames carry the path.
pub open spec fn matches_event(e: WatchEvent, c: FileChange) -> bool {
    match c.change_type {
        ChangeType::Modified => e == WatchEvent::FileChanged(c),
        ChangeType::Created => e == WatchEvent::FileCreated(c.path),
        ChangeType::Deleted => e == WatchEvent::FileDeleted(c.path),
        ChangeType::Renamed => e matches WatchEvent::FileRenamed { from, to } && from@ == c.path@
            && to@ == c.path@,
    }
}

/// Turn a settled change into the event the watcher emits.
pub fn event_of(change: FileChange) -> (r: WatchEvent)
    ensures
        matches_event(r, change),
{
    match change.change_type {
        ChangeType::Modified => WatchEvent::FileChanged(change),
        ChangeType::Created => WatchEvent::FileCreated(change.path),
        ChangeType::Deleted => WatchEvent::FileDeleted(change.path),
        ChangeType::Renamed => {
            let from = change.path.clone();
            WatchEvent::FileRenamed { from, to: change.path }
        },
    }
}

/// One debounce step: what this poll observed, against what is pending.
/// A fresh observation is held from now; further observations collapse
/// into the pending change without resetting its clock; once the hold
/// expires the pending change falls due as one event; a quiet poll clears
/// the pending change.  Events are never reordered, only collapsed.
pub fn debounce_step(
    pending: Option<(FileChange, u64)>,
    observed: Option<FileChange>,
    now_ms: u64,
    debounce_ms: u64,
) -> (r: (Option<(FileChange, u64)>, Option<WatchEvent>))
    ensures
        observed is None ==> r.0 is None && r.1 is None,
        (observed is Some && pending is None) ==> r.0 == Some((observed.unwrap(), now_ms)) && r.1
            is None,
        (observed is Some && pending is Some && now_ms < pending.unwrap().1 + debounce_ms) ==> r.0
            == Some((observed.unwrap(), pending.unwrap().1)) && r.1 is None,
        (observed is Some && pending is Some && now_ms >= pending.unwrap().1 + debounce_ms) ==> r.0
            is None && r.1 is Some && matches_event(r.1.unwrap(), pending.unwrap().0),
{
    match observed {
        None => (None, None),
        Some(ch) => match pending {
            None => (Some((ch, now_ms)), None),
            Some((pch, t)) => {
                if now_ms >= t && now_ms - t >= debounce_ms {
                    (None, Some(event_of(pch)))
                } else {
                    (Some((ch, t)), None)
                }
            },
        },
    }
}

/// What a settled modification should lead to for a watched buffer.
#[derive(Debug, Clone, Copy, PartialEq, Eq, Structural)]
pub enum ModifiedDisposition {
    /// Clean buffer with auto-reload on: reload from disk and report it.
    AutoReload,
    /// Dirty buffer: build the three-way conflict and surface it.
    RaiseConflict,
    /// Unwatched path, or auto-reload switched off for a clean buffer.
    Ignore,
}

/// Equality of two identities, field by field.
fn identity_eq(a: &FileIdentity, b: &FileIdentity) -> (r: bool)
    ensures
        r == (*a == *b),
{
    let hash_eq: bool = match (a.content_hash, b.content_hash) {
        (None, None) => true,
        (Some(x), Some(y)) => x == y,
        _ => false,
    };
    a.device_id == b.device_id && a.inode == b.inode && a.size == b.size && a.mtime == b.mtime
        && hash_eq
}

/// Byte-wise equality of two slices.
fn bytes_eq(a: &[u8], b: &[u8]) -> (r: bool)
    ensures
        r == (a@ == b@),
{
    let n = a.len();
    if n != b.len() {
        proof {
            assert(a@.len() != b@.len());
        }
        return false;
    }
    let mut i: usize = 0;
    while i < n
        invariant
            n == a@.len(),
            n == b@.len(),
            i <= n,
            forall|j: int| 0 <= j < i ==> a@[j] == b@[j],
        decreases n - i,
    {
        if a[i] != b[i] {
            return false;
        }
        i += 1;
    }
    proof {
        assert(a@ =~= b@);
    }
    true
}

/// Copy a byte vector.
fn clone_bytes(v: &Vec<u8>) -> (r: Vec<u8>)
    ensures
        r@ == v@,
{
    vstd::slice::slice_to_vec(v.as_slice())
}

/// Copy a snapshot list, field by field.
fn clone_snapshots(v: &Vec<FileSnapshot>) -> (r: Vec<FileSnapshot>)
    ensures
        r@.len() == v@.len(),
        forall|j: int|
            0 <= j < v@.len() ==> (#[trigger] r@[j]).content@ == v@[j].content@ && r@[j].identity
                == v@[j].identity && r@[j].timestamp == v@[j].timestamp,
{
    let n = v.len();
    let mut r: Vec<FileSnapshot> = Vec::new();
    let mut i: usize = 0;
    while i < n
        invariant
            n == v@.len(),
            i <= n,
            r@.len() == i,
            forall|j: int|
                0 <= j < i ==> (#[trigger] r@[j]).content@ == v@[j].content@ && r@[j].identity
                    == v@[j].identity && r@[j].timestamp == v@[j].timestamp,
        decreases n - i,
    {
        let sn: &FileSnapshot = &v[i];
        r.push(FileSnapshot { content: clone_bytes(&sn.content), identity: sn.identity, timestamp: sn.timestamp });
        i += 1;
    }
    r
}

proof fn lemma_lookup_update_like(
    v: Seq<(String, FileState)>,
    i: int,
    key: String,
    st: FileState,
    k: Seq<char>,
)
    requires
        0 <= i < v.len(),
        key@ == v[i].0@,
        forall|j: int| 0 <= j < i ==> #[trigger] v[j].0@ != v[i].0@,
    ensures
        lookup(v.update(i, (key, st)), k) == if v[i].0@ == k {
            Some(st)
        } else {
            lookup(v, k)
        },
    decreases v.len(),
{
    let w = v.update(i, (key, st));
    if i == 0 {
        assert(w.first() == (key, st));
        assert(w.drop_first() =~= v.drop_first());
    } else {
        assert(w.first() == v.first());
        assert(w.drop_first() =~= v.drop_first().update(i - 1, (key, st)));
        assert forall|j: int| 0 <= j < i - 1 implies #[trigger] v.drop_first()[j].0@
            != v.drop_first()[i - 1].0@ by {
            assert(v.drop_first()[j] == v[j + 1]);
            assert(v.drop_first()[i - 1] == v[i]);
        }
        lemma_lookup_update_like(v.drop_first(), i - 1, key, st, k);
    }
}

} // verus!
