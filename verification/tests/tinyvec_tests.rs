use niv::tinyvec::TinyVec;

#[test]
fn test_new() {
    let vec: TinyVec<i32> = TinyVec::new();
    assert_eq!(vec.len(), 0);
    assert!(vec.is_empty());
    assert_eq!(vec.capacity(), 2048);
}

#[test]
fn test_push_pop() {
    let mut vec = TinyVec::new();
    vec.push(1);
    vec.push(2);
    vec.push(3);

    assert_eq!(vec.len(), 3);
    assert_eq!(vec.pop(), Some(3));
    assert_eq!(vec.pop(), Some(2));
    assert_eq!(vec.pop(), Some(1));
    assert_eq!(vec.pop(), None);
}

#[test]
fn test_get() {
    let mut vec = TinyVec::new();
    vec.push(42);
    vec.push(100);

    assert_eq!(vec.get(0), Some(&42));
    assert_eq!(vec.get(1), Some(&100));
    assert_eq!(vec.get(2), None);
}

#[test]
fn test_index() {
    let mut vec = TinyVec::new();
    vec.push(42);
    vec.push(100);

    assert_eq!(*vec.get(0).unwrap(), 42);
    assert_eq!(*vec.get(1).unwrap(), 100);
}

#[test]
fn test_stack_to_heap_transition() {
    let mut vec = TinyVec::new();

    for i in 0..2048 {
        vec.push(i);
    }

    assert_eq!(vec.len(), 2048);
    assert_eq!(vec.capacity(), 2048);

    // This should trigger heap allocation
    vec.push(2048);

    assert_eq!(vec.len(), 2049);
    assert!(vec.capacity() > 2048);
}

#[test]
fn test_u32_operations() {
    let mut vec: TinyVec<u32> = TinyVec::new();

    for i in 0..100 {
        vec.push(i * 2);
    }

    assert_eq!(vec.len(), 100);
    assert_eq!(*vec.get(0).unwrap(), 0);
    assert_eq!(*vec.get(50).unwrap(), 100);
    assert_eq!(*vec.get(99).unwrap(), 198);

    vec.set(25, 999);
    assert_eq!(*vec.get(25).unwrap(), 999);

    let mut sum = 0;
    for i in 0..vec.len() {
        sum += *vec.get(i).unwrap();
    }
    // Sum of 0, 2, 4, ..., 198 is 9900; entry 25 went from 50 to 999
    let expected_sum = 9900 + 949;
    assert_eq!(sum, expected_sum);
}

#[test]
fn test_string_operations() {
    let mut vec: TinyVec<String> = TinyVec::new();

    vec.push("hello".to_string());
    vec.push("world".to_string());
    vec.push("rust".to_string());

    assert_eq!(vec.len(), 3);
    assert_eq!(vec.get(0).unwrap(), "hello");
    assert_eq!(vec.get(1).unwrap(), "world");
    assert_eq!(vec.get(2).unwrap(), "rust");

    vec.set(1, "modified".to_string());
    assert_eq!(vec.get(1).unwrap(), "modified");

    let popped = vec.pop().unwrap();
    assert_eq!(popped, "rust");
    assert_eq!(vec.len(), 2);
}

#[test]
fn test_boolean_operations() {
    let mut vec: TinyVec<bool> = TinyVec::new();

    for i in 0..100 {
        vec.push(i % 2 == 0);
    }

    assert_eq!(vec.len(), 100);
    assert_eq!(*vec.get(0).unwrap(), true);
    assert_eq!(*vec.get(1).unwrap(), false);
    assert_eq!(*vec.get(2).unwrap(), true);

    let true_count = (0..vec.len()).filter(|&i| *vec.get(i).unwrap()).count();
    assert_eq!(true_count, 50);
}

#[test]
fn test_large_stack_fill() {
    let mut vec: TinyVec<u64> = TinyVec::new();

    for i in 0..2048 {
        vec.push(i as u64);
    }

    assert_eq!(vec.len(), 2048);
    assert_eq!(vec.capacity(), 2048);
    assert_eq!(*vec.get(0).unwrap(), 0);
    assert_eq!(*vec.get(2047).unwrap(), 2047);

    // Verify we are still on the fixed store
    assert!(!vec.using_heap);
}

#[test]
fn test_heap_growth() {
    let mut vec: TinyVec<u32> = TinyVec::new();

    for i in 0..3000 {
        vec.push(i);
    }

    assert_eq!(vec.len(), 3000);
    assert!(vec.capacity() >= 3000);
    assert!(vec.using_heap);

    assert_eq!(*vec.get(0).unwrap(), 0);
    assert_eq!(*vec.get(2047).unwrap(), 2047);
    assert_eq!(*vec.get(2048).unwrap(), 2048);
    assert_eq!(*vec.get(2999).unwrap(), 2999);
}

#[test]
fn test_edge_cases() {
    let mut vec = TinyVec::new();

    assert_eq!(vec.pop(), None);
    assert_eq!(vec.get(0), None);

    vec.push(42);
    assert_eq!(vec.len(), 1);
    assert_eq!(*vec.get(0).unwrap(), 42);

    let popped = vec.pop().unwrap();
    assert_eq!(popped, 42);
    assert_eq!(vec.len(), 0);
    assert!(vec.is_empty());
}

#[test]
fn test_partial_eq() {
    let mut vec1 = TinyVec::new();
    vec1.push(1);
    vec1.push(2);

    let mut vec2 = TinyVec::new();
    vec2.push(1);
    vec2.push(2);

    assert_eq!(vec1.len(), vec2.len());
    for i in 0..vec1.len() {
        assert_eq!(vec1.get(i), vec2.get(i));
    }

    vec2.set(1, 3);
    assert_ne!(vec1.get(1), vec2.get(1));
}
