use niv::identity::{FileIdentity, fast_content_hash};
use niv::swap::{CursorPosition, SwapContent, ViewportState, deserialize_swap_content,
    serialize_swap_content, swap_file_name};
use niv::watcher::{debounce_step, event_of, ChangeType, ConflictResolution, FileChange,
    FileWatcher, ModifiedDisposition, WatchEvent, WatcherConfig, WriteTarget};
use niv::swap::swap_due;

fn ident(device: u64, inode: u64, size: u64, mtime: u64, hash: Option<u64>) -> FileIdentity {
    FileIdentity { device_id: device, inode, size, mtime, content_hash: hash }
}

#[test]
fn identity_same_file_survives_rename() {
    // a rename within a volume keeps device and inode; size and mtime may move
    let before = ident(2, 99, 10, 1111, Some(5));
    let after = ident(2, 99, 10, 2222, Some(5));
    assert!(after.is_same_file(&before));
    assert!(before.is_same_file(&after));
    assert!(before.is_modified(&after)); // the mtime moved
}

#[test]
fn identity_modified_and_content_changed() {
    let a = ident(1, 2, 10, 100, Some(42));
    let same = ident(1, 2, 10, 100, Some(42));
    assert!(!a.is_modified(&same));
    assert_eq!(a.content_changed(&same), Some(false));

    let grown = ident(1, 2, 11, 100, Some(43));
    assert!(a.is_modified(&grown));
    assert_eq!(a.content_changed(&grown), Some(true));

    let no_hash = ident(1, 2, 10, 100, None);
    assert_eq!(a.content_changed(&no_hash), None);

    let other_file = ident(1, 3, 10, 100, Some(42));
    assert!(a.is_modified(&other_file));
}

#[test]
fn fast_hash_depends_on_content() {
    assert_eq!(fast_content_hash(&[]), None);
    let h1 = fast_content_hash(b"hello world, this is a sample").unwrap();
    let h2 = fast_content_hash(b"hello world, this is a sample").unwrap();
    let h3 = fast_content_hash(b"hello world, this is b sample").unwrap();
    assert_eq!(h1, h2);
    assert_ne!(h1, h3);
}

#[test]
fn swap_serialize_deserialize_round_trip() {
    let record = SwapContent {
        content: b"buffer body\nwith lines\n".to_vec(),
        original_path: b"/home/user/notes.txt".to_vec(),
        edit_count: 12,
        cursor_position: Some(CursorPosition { line: 3, column: 4, offset: 27 }),
        viewport_state: Some(ViewportState { top_line: 1, visible_lines: 40, horizontal_offset: 0 }),
        timestamp: 1700000000,
    };
    let bytes = serialize_swap_content(&record);
    let text = String::from_utf8(bytes.clone()).unwrap();
    assert!(text.starts_with("timestamp=1700000000\n"));
    assert!(text.contains("edit_count=12\n"));
    assert!(text.contains("cursor=3,4,27\n"));
    assert!(text.contains("viewport=1,40,0\n"));
    assert!(text.contains("---CONTENT---\n"));

    let parsed = deserialize_swap_content(&bytes).unwrap();
    assert_eq!(parsed, record);
}

#[test]
fn swap_round_trip_without_positions() {
    let record = SwapContent {
        content: Vec::new(),
        original_path: Vec::new(),
        edit_count: 0,
        cursor_position: None,
        viewport_state: None,
        timestamp: 0,
    };
    let bytes = serialize_swap_content(&record);
    let parsed = deserialize_swap_content(&bytes).unwrap();
    assert_eq!(parsed, record);
    assert!(deserialize_swap_content(b"not a swap record").is_err());
}

#[test]
fn swap_name_has_tilde_prefix() {
    assert_eq!(swap_file_name("notes.txt"), ".~notes.txt");
}

#[test]
fn watcher_classifies_changes_and_resolves_conflicts() {
    let mut w = FileWatcher::new(WatcherConfig::default());
    let id0 = ident(1, 10, 5, 100, None);
    w.watch_file("/tmp/a.txt", b"base\n", id0, 50).unwrap();

    // unchanged identity: no event
    let same = ident(1, 10, 5, 100, None);
    assert!(w.check_external_changes("/tmp/a.txt", Some(&same), 60).unwrap().is_none());

    // moved mtime: modified
    let moved = ident(1, 10, 5, 200, None);
    let change = w.check_external_changes("/tmp/a.txt", Some(&moved), 61).unwrap().unwrap();
    assert_eq!(change.change_type, ChangeType::Modified);

    // stat failed: deleted
    let gone = w.check_external_changes("/tmp/a.txt", None, 62).unwrap().unwrap();
    assert_eq!(gone.change_type, ChangeType::Deleted);

    // a dirty buffer against changed disk bytes raises a conflict
    w.update_buffer("/tmp/a.txt", b"mine\n", 70).unwrap();
    let conflict = w
        .handle_conflict("/tmp/a.txt", b"mine\n", b"theirs\n", &moved)
        .unwrap()
        .unwrap();
    assert_eq!(conflict.buffer_content, b"mine\n".to_vec());
    assert_eq!(conflict.disk_content, b"theirs\n".to_vec());
    assert_eq!(conflict.base_content, b"base\n".to_vec());

    // resolutions
    let use_buffer = w.resolve_conflict(&conflict, ConflictResolution::UseBuffer).unwrap();
    assert_eq!(use_buffer.content, b"mine\n".to_vec());
    let (target, bytes) = use_buffer.write.unwrap();
    assert_eq!(target, WriteTarget::Original);
    assert_eq!(bytes, b"mine\n".to_vec());

    let use_disk = w.resolve_conflict(&conflict, ConflictResolution::UseDisk).unwrap();
    assert_eq!(use_disk.content, b"theirs\n".to_vec());
    assert!(use_disk.write.is_none());

    let keep_both = w.resolve_conflict(&conflict, ConflictResolution::KeepBoth).unwrap();
    let (target, bytes) = keep_both.write.unwrap();
    assert_eq!(target, WriteTarget::BufferSibling);
    assert_eq!(bytes, b"mine\n".to_vec());

    assert!(w.resolve_conflict(&conflict, ConflictResolution::Manual).is_err());
}

#[test]
fn watcher_follows_renames_by_identity() {
    let mut w = FileWatcher::new(WatcherConfig::default());
    let id = ident(3, 33, 9, 500, Some(7));
    w.watch_file("/tmp/old.txt", b"text", id, 1).unwrap();
    let moved = w.follow_rename("/tmp/old.txt", "/tmp/new.txt", Some(&id)).unwrap();
    assert!(moved);
    // the new path is now watched; an unchanged poll reports nothing
    assert!(w.check_external_changes("/tmp/new.txt", Some(&id), 2).unwrap().is_none());
    // a rename to a different identity is not followed
    let mut w2 = FileWatcher::new(WatcherConfig::default());
    w2.watch_file("/tmp/a", b"x", id, 1).unwrap();
    let other = ident(3, 44, 9, 500, Some(7));
    assert!(!w2.follow_rename("/tmp/a", "/tmp/b", Some(&other)).unwrap());
}

#[test]
fn watcher_clean_buffer_raises_no_conflict() {
    let mut w = FileWatcher::new(WatcherConfig::default());
    let id = ident(1, 1, 1, 1, None);
    w.watch_file("/tmp/c.txt", b"base", id, 1).unwrap();
    // clean buffer: no conflict even when disk bytes differ
    assert!(w.handle_conflict("/tmp/c.txt", b"base", b"changed", &id).unwrap().is_none());
    w.update_buffer("/tmp/c.txt", b"edited", 2).unwrap();
    // dirty, but the disk agrees with the base: still no conflict
    assert!(w.handle_conflict("/tmp/c.txt", b"edited", b"base", &id).unwrap().is_none());
}

#[test]
fn debounce_holds_collapses_and_emits() {
    let change = |t: u64| FileChange {
        path: "/tmp/d.txt".to_string(),
        change_type: ChangeType::Modified,
        timestamp: t,
        old_identity: None,
        new_identity: None,
    };
    // a fresh observation is held from now
    let (pending, event) = debounce_step(None, Some(change(1)), 1000, 100);
    assert!(event.is_none());
    let (held, t0) = pending.unwrap();
    assert_eq!(t0, 1000);
    assert_eq!(held.timestamp, 1);
    // a further observation within the hold collapses without resetting the clock
    let (pending, event) = debounce_step(Some((held, t0)), Some(change(2)), 1050, 100);
    assert!(event.is_none());
    let (held, t0) = pending.unwrap();
    assert_eq!(t0, 1000);
    assert_eq!(held.timestamp, 2);
    // once the hold expires, the pending change falls due as one event
    let (pending, event) = debounce_step(Some((held, t0)), Some(change(3)), 1100, 100);
    assert!(pending.is_none());
    match event.unwrap() {
        WatchEvent::FileChanged(c) => assert_eq!(c.timestamp, 2),
        other => panic!("unexpected event {other:?}"),
    }
    // a quiet poll clears the pending change
    let (pending, event) = debounce_step(Some((change(4), 1000)), None, 2000, 100);
    assert!(pending.is_none() && event.is_none());
}

#[test]
fn event_of_maps_change_kinds() {
    let mk = |k: ChangeType| FileChange {
        path: "/tmp/e.txt".to_string(),
        change_type: k,
        timestamp: 9,
        old_identity: None,
        new_identity: None,
    };
    assert!(matches!(event_of(mk(ChangeType::Modified)), WatchEvent::FileChanged(_)));
    assert!(matches!(event_of(mk(ChangeType::Created)), WatchEvent::FileCreated(_)));
    assert!(matches!(event_of(mk(ChangeType::Deleted)), WatchEvent::FileDeleted(_)));
    match event_of(mk(ChangeType::Renamed)) {
        WatchEvent::FileRenamed { from, to } => {
            assert_eq!(from, "/tmp/e.txt");
            assert_eq!(to, "/tmp/e.txt");
        }
        other => panic!("unexpected event {other:?}"),
    }
}

#[test]
fn modified_dispatch_follows_buffer_state() {
    let mut w = FileWatcher::new(WatcherConfig::default());
    let id = ident(5, 6, 7, 8, None);
    assert_eq!(w.classify_modified("/tmp/x"), ModifiedDisposition::Ignore);
    w.watch_file("/tmp/x", b"clean", id, 1).unwrap();
    assert_eq!(w.classify_modified("/tmp/x"), ModifiedDisposition::AutoReload);
    w.update_buffer("/tmp/x", b"dirty", 2).unwrap();
    assert_eq!(w.classify_modified("/tmp/x"), ModifiedDisposition::RaiseConflict);
}

#[test]
fn swap_due_on_edits_or_idle() {
    assert!(swap_due(10, 10, 0, 1, 5000));
    assert!(!swap_due(3, 10, 1000, 2000, 5000));
    assert!(swap_due(3, 10, 1000, 6000, 5000));
}
