use niv::leaf::{LEAF_CAPACITY, LEAF_USABLE};
use niv::rope::Rope;

fn read_all(rope: &Rope) -> Vec<u8> {
    let mut out = vec![0u8; rope.len()];
    let r = rope.read_bytes_global(0, &mut out).expect("read all");
    assert_eq!(r, out.len());
    out
}

#[test]
fn rope_build_len_read() {
    let mut rope = Rope::new();
    let pattern = b"Hello World, I need editor\n";
    let mut buf: Vec<u8> = Vec::new();
    while buf.len() < LEAF_CAPACITY * 3 + 123 {
        buf.extend_from_slice(pattern);
    }
    let wrote = rope.build_from_bytes(&buf).expect("build");
    assert_eq!(wrote, buf.len());
    assert_eq!(rope.len(), buf.len());
    let mut out = vec![0u8; 96];
    let r = rope.read_bytes_global(0, &mut out).expect("read");
    assert_eq!(&out[..r], &buf[..r]);
}

#[test]
fn rope_find_replace_same_len() {
    let mut rope = Rope::new();
    let data = b"void draw(void){ puts(\"draw\"); }\nvoid tick(float dt){}\n";
    let _ = rope.build_from_bytes(data).expect("build");
    let pos = rope.find_first(b"draw(");
    assert!(pos.is_some());
    let ok = rope.replace_first_same_len(b"draw(", b"show(").expect("replace");
    assert!(ok);
    let all = read_all(&rope);
    assert!(std::str::from_utf8(&all).unwrap_or("").contains("show("));
}

#[test]
fn rope_total_lines_basic() {
    let mut rope = Rope::new();
    let data = b"a\nb\nc\n"; // 3 newlines
    let wrote = rope.build_from_bytes(data).expect("build");
    assert_eq!(wrote, data.len());
    assert_eq!(rope.len(), data.len());
    assert_eq!(rope.total_lines(), 3);
}

#[test]
fn rope_read_global_across_leaves() {
    let mut rope = Rope::new();
    let line = b"0123456789abcdefghijklmnopqrstuvwxyz\n";
    let mut data: Vec<u8> = Vec::new();
    while data.len() < LEAF_USABLE * 2 + 50 {
        data.extend_from_slice(line);
    }
    let _ = rope.build_from_bytes(&data).expect("build");

    let start = LEAF_USABLE.saturating_sub(20);
    let want = 80usize;
    let mut out = vec![0u8; want];
    let r = rope.read_bytes_global(start, &mut out).expect("read");
    assert_eq!(&out[..r], &data[start..start + r]);
}

#[test]
fn rope_replace_var_len_updates_metadata() {
    let mut rope = Rope::new();
    let data = b"abc\ndef\n"; // len 8, lines 2
    let _ = rope.build_from_bytes(data).expect("build");
    assert_eq!(rope.len(), 8);
    assert_eq!(rope.total_lines(), 2);

    // Replace "def" (3) with "d\ne\nf" (5), adding 2 newlines;
    // the result is the offset that was replaced
    let replaced = rope.replace_first(b"def", b"d\ne\nf").expect("replace");
    assert_eq!(replaced, Some(4));
    assert_eq!(rope.len(), 10);
    assert_eq!(rope.total_lines(), 4);

    let all = read_all(&rope);
    let s = std::str::from_utf8(&all).unwrap_or("");
    assert!(s.contains("abc\nd\ne\nf\n"));
}

#[test]
fn rope_metadata_consistency_large_build() {
    let mut rope = Rope::new();
    let mut data: Vec<u8> = Vec::new();
    for i in 0..5000 {
        let mut line = format!("line_{i}\n").into_bytes();
        data.append(&mut line);
    }
    let _ = rope.build_from_bytes(&data).expect("build");
    let expected_newlines = data.iter().filter(|&&b| b == b'\n').count();
    assert_eq!(rope.len(), data.len());
    assert_eq!(rope.total_lines(), expected_newlines);

    let start = data.len() / 3;
    let mut buf = vec![0u8; 123];
    let r = rope.read_bytes_global(start, &mut buf).expect("read");
    assert_eq!(&buf[..r], &data[start..start + r]);
}

#[test]
fn rope_slice_iterator_zero_copy() {
    let mut rope = Rope::new();
    let data = b"Hello World\nThis is a test\nWith multiple lines";
    let _ = rope.build_from_bytes(data).expect("build");

    let mut slice = rope.slice(0, data.len());
    let mut collected = Vec::new();
    while let Some(chunk) = slice.next_chunk() {
        collected.extend_from_slice(&chunk);
    }
    assert_eq!(collected, data);

    let mut slice = rope.slice(6, 18); // "World\nThis i"
    let mut collected = Vec::new();
    while let Some(chunk) = slice.next_chunk() {
        collected.extend_from_slice(&chunk);
    }
    assert_eq!(collected, &data[6..18]);
}

#[test]
fn rope_slice_iterator_single_leaf() {
    let mut rope = Rope::new();
    let data = b"Hello World\nThis is a test\nWith multiple lines";
    let _ = rope.build_from_bytes(data).expect("build");

    let mut slice = rope.slice(6, 25);
    let mut collected = Vec::new();
    while let Some(chunk) = slice.next_chunk() {
        collected.extend_from_slice(&chunk);
    }
    assert_eq!(collected, &data[6..25]);

    let slice = rope.slice(6, 25);
    let chunk_count = slice.chunk_count();
    assert_eq!(chunk_count, 1, "Expected single chunk within leaf, got {}", chunk_count);
}

#[test]
fn rope_slice_iterator_bounds() {
    let mut rope = Rope::new();
    let data = b"Short text";
    let _ = rope.build_from_bytes(data).expect("build");

    let mut slice = rope.slice(5, 20); // clamps to the valid range
    let mut collected = Vec::new();
    while let Some(chunk) = slice.next_chunk() {
        collected.extend_from_slice(&chunk);
    }
    assert_eq!(collected, &data[5..]);

    let slice = rope.slice(5, 5);
    assert_eq!(slice.chunk_count(), 0);
}

#[test]
fn rope_six_byte_document() {
    // "a\nb\nc\n": 6 bytes, 3 newlines; the middle slice is "b\nc"
    let mut rope = Rope::new();
    let data = b"a\nb\nc\n";
    let _ = rope.build_from_bytes(data).expect("build");
    assert_eq!(rope.len(), 6);
    assert_eq!(rope.total_lines(), 3);
    let mut slice = rope.slice(2, 5);
    let mut collected = Vec::new();
    while let Some(chunk) = slice.next_chunk() {
        collected.extend_from_slice(&chunk);
    }
    assert_eq!(collected, b"b\nc");
}

#[test]
fn rope_insert_then_delete_restores() {
    let mut rope = Rope::new();
    let data = b"hello world";
    let _ = rope.build_from_bytes(data).expect("build");
    let lines_before = rope.total_lines();
    rope.insert_at(5, b"XY\n").expect("insert");
    assert_eq!(rope.len(), data.len() + 3);
    rope.delete_range(5, 8).expect("delete");
    assert_eq!(rope.len(), data.len());
    assert_eq!(rope.total_lines(), lines_before);
    assert_eq!(read_all(&rope), data);
}

#[test]
fn rope_delete_then_insert_restores() {
    let mut rope = Rope::new();
    let data = b"0123456789";
    let _ = rope.build_from_bytes(data).expect("build");
    let mut kept = vec![0u8; 4];
    let r = rope.read_bytes_global(3, &mut kept).expect("read");
    assert_eq!(r, 4);
    rope.delete_range(3, 7).expect("delete");
    assert_eq!(rope.len(), 6);
    rope.insert_at(3, &kept).expect("insert");
    assert_eq!(read_all(&rope), data);
}

#[test]
fn rope_insert_splits_full_leaf() {
    // one leaf built to its usable fill, then a large insertion in its middle
    let mut rope = Rope::new();
    let mut data = Vec::new();
    while data.len() < LEAF_USABLE {
        data.push(b'a' + (data.len() % 23) as u8);
    }
    let _ = rope.build_from_bytes(&data).expect("build");
    let mut patch = Vec::new();
    while patch.len() < LEAF_CAPACITY {
        patch.push(b'A' + (patch.len() % 23) as u8);
    }
    rope.insert_at(100, &patch).expect("insert");
    let mut expect = data[..100].to_vec();
    expect.extend_from_slice(&patch);
    expect.extend_from_slice(&data[100..]);
    assert_eq!(read_all(&rope), expect);
}

#[test]
fn rope_empty_and_exact_capacity() {
    let mut rope = Rope::new();
    let empty: Vec<u8> = Vec::new();
    assert_eq!(rope.build_from_bytes(&empty).expect("build"), 0);
    assert_eq!(rope.len(), 0);
    assert_eq!(rope.total_lines(), 0);

    let data = vec![b'x'; LEAF_CAPACITY];
    assert_eq!(rope.build_from_bytes(&data).expect("build"), LEAF_CAPACITY);
    assert_eq!(rope.len(), LEAF_CAPACITY);
    assert_eq!(read_all(&rope), data);
}

#[test]
fn rope_find_first_spanning_leaves() {
    // a needle that straddles the boundary between two built leaves
    let mut rope = Rope::new();
    let mut data = vec![b'.'; LEAF_USABLE - 3];
    data.extend_from_slice(b"NEEDLE");
    data.extend(vec![b'.'; 50]);
    let _ = rope.build_from_bytes(&data).expect("build");
    assert_eq!(rope.find_first(b"NEEDLE"), Some(LEAF_USABLE - 3));
    assert_eq!(rope.find_first(b"ABSENT"), None);
    assert_eq!(rope.find_first(b""), Some(0));
}

#[test]
fn rope_invalid_offsets_are_reported() {
    let mut rope = Rope::new();
    let _ = rope.build_from_bytes(b"abc").expect("build");
    assert!(rope.insert_at(4, b"x").is_err());
    assert!(rope.delete_range(2, 1).is_err());
    assert!(rope.delete_range(1, 9).is_err());
    assert_eq!(rope.len(), 3);
}

#[test]
fn rope_offset_of_line() {
    let mut rope = Rope::new();
    let data = b"ab\ncd\n\nxyz";
    let _ = rope.build_from_bytes(data).expect("build");
    assert_eq!(rope.offset_of_line(0), Some(0));
    assert_eq!(rope.offset_of_line(1), Some(3));
    assert_eq!(rope.offset_of_line(2), Some(6));
    assert_eq!(rope.offset_of_line(3), Some(7));
    assert_eq!(rope.offset_of_line(4), None);

    // across leaf boundaries
    let mut big = Vec::new();
    for i in 0..500 {
        big.extend_from_slice(format!("row number {i}\n").as_bytes());
    }
    let _ = rope.build_from_bytes(&big).expect("build");
    let expected: Vec<usize> = std::iter::once(0)
        .chain(big.iter().enumerate().filter(|(_, &b)| b == b'\n').map(|(i, _)| i + 1))
        .collect();
    for (line, &off) in expected.iter().enumerate() {
        assert_eq!(rope.offset_of_line(line), Some(off), "line {line}");
    }
}
