use niv::leaf::{Leaf, LEAF_CAPACITY};
use niv::rbrope::RBRope;
use niv::rbt::RBTree;

#[test]
fn rbt_test_insert_and_search() {
    let mut tree = RBTree::new();

    // Insert some keys
    assert!(tree.insert(10).is_ok());
    assert!(tree.insert(20).is_ok());
    assert!(tree.insert(5).is_ok());
    assert!(tree.insert(15).is_ok());

    // Search for existing keys
    assert!(tree.search(10).is_some());
    assert!(tree.search(20).is_some());
    assert!(tree.search(5).is_some());
    assert!(tree.search(15).is_some());

    // Search for non-existing keys
    assert!(tree.search(25).is_none());
    assert!(tree.search(0).is_none());
}

#[test]
fn rbt_test_red_black_properties() {
    let mut tree = RBTree::new();

    assert!(tree.insert(10).is_ok());
    assert!(tree.insert(20).is_ok());
    assert!(tree.insert(5).is_ok());
    assert!(tree.insert(15).is_ok());
    assert!(tree.insert(25).is_ok());

    assert!(tree.is_valid());
}

#[test]
fn rbt_chunk_test_insert_and_search() {
    let mut tree = RBRope::new();

    assert!(tree.insert(10).is_ok());
    assert!(tree.insert(20).is_ok());
    assert!(tree.insert(5).is_ok());
    assert!(tree.insert(15).is_ok());

    assert!(tree.search(10).is_some());
    assert!(tree.search(20).is_some());
    assert!(tree.search(5).is_some());
    assert!(tree.search(15).is_some());

    assert!(tree.search(25).is_none());
    assert!(tree.search(0).is_none());
}

#[test]
fn rbt_chunk_test_red_black_properties() {
    let mut tree = RBRope::new();

    assert!(tree.insert(10).is_ok());
    assert!(tree.insert(20).is_ok());
    assert!(tree.insert(5).is_ok());
    assert!(tree.insert(15).is_ok());
    assert!(tree.insert(25).is_ok());

    assert!(tree.is_valid());
}

#[test]
fn test_leaf_insert_hello_world() {
    let mut leaf = Leaf::new();
    let data = b"Hello World, I need editor";
    let wrote = leaf.insert(0, data).expect("insert failed");
    assert_eq!(wrote, data.len());

    let mut out = vec![0u8; leaf.byte_len()];
    let read = leaf.read_into(0, &mut out).expect("read failed");
    assert_eq!(read, data.len());
    assert_eq!(&out[..read], data);
}

#[test]
fn test_rbrope_long_text_capacity() {
    let mut tree = RBRope::new();

    // Build a long text > LEAF_CAPACITY
    let pattern = b"Hello World, I need editor\n";
    let mut long_data: Vec<u8> = Vec::new();
    while long_data.len() < 5000 {
        long_data.extend_from_slice(pattern);
    }

    // Append into the staging leaf until capacity is reached
    let mut inserted_total = 0usize;
    while inserted_total < long_data.len() {
        let off = tree.len();
        let wrote = tree
            .insert_bytes(off, &long_data[inserted_total..])
            .expect("insert into staging leaf failed");
        if wrote == 0 {
            break;
        }
        inserted_total += wrote;
        if tree.len() >= LEAF_CAPACITY {
            break;
        }
    }

    assert_eq!(tree.len(), LEAF_CAPACITY);

    let mut out = vec![0u8; LEAF_CAPACITY];
    let read = tree.read_bytes(0, &mut out).expect("read failed");
    assert_eq!(read, LEAF_CAPACITY);
    assert_eq!(&out[..], &long_data[..LEAF_CAPACITY]);
}

#[test]
fn leaf_gap_invariant_edges() {
    // delete at the end is a no-op; read at the end copies nothing;
    // inserting nothing copies nothing
    let mut leaf = Leaf::new();
    let wrote = leaf.insert(0, b"abc").expect("insert");
    assert_eq!(wrote, 3);
    assert_eq!(leaf.delete(3, 10).expect("delete at end"), 0);
    let mut out = vec![0u8; 4];
    assert_eq!(leaf.read_into(3, &mut out).expect("read at end"), 0);
    let empty: [u8; 0] = [];
    assert_eq!(leaf.insert(1, &empty).expect("empty insert"), 0);
    assert_eq!(leaf.byte_len(), 3);
    assert!(leaf.insert(9, b"x").is_err());
}

#[test]
fn leaf_insert_reports_short_copy_when_full() {
    let mut leaf = Leaf::new();
    let big = vec![b'z'; LEAF_CAPACITY + 100];
    let wrote = leaf.insert(0, &big).expect("insert");
    assert_eq!(wrote, LEAF_CAPACITY);
    assert_eq!(leaf.byte_len(), LEAF_CAPACITY);
    // the gap is gone: the next insert reports the shortage
    assert!(leaf.insert(0, b"y").is_err());
}
