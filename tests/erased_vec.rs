use evenio::erased_vec::ErasedVec;
use evenio::layout::ElemLayout;

fn byte_vec(size: usize, needs_drop: bool) -> ErasedVec {
    ErasedVec::new(ElemLayout { size, align: 1 }, needs_drop)
}

fn push_bytes(vec: &mut ErasedVec, bytes: &[u8]) {
    let row = vec.push();
    vec.write(row, &bytes.to_vec());
}

#[test]
fn calls_drop_on_elements() {
    let mut vec = byte_vec(1, true);
    for i in 0..5u8 {
        push_bytes(&mut vec, &[i]);
    }
    let destroyed = vec.clear();
    assert_eq!(destroyed.len(), 5);
    assert_eq!(destroyed, vec![vec![0], vec![1], vec![2], vec![3], vec![4]]);
    assert_eq!(vec.len(), 0);
}

#[test]
fn swap_remove() {
    let mut vec = byte_vec(3, true);
    let strings = ["aaa", "bbb", "ccc", "ddd"];
    for s in strings {
        push_bytes(&mut vec, s.as_bytes());
    }

    assert_eq!(vec.swap_remove(1), Some(b"bbb".to_vec()));
    assert_eq!(vec.read(1), b"ddd".to_vec());

    assert_eq!(vec.swap_remove(2), Some(b"ccc".to_vec()));
    assert_eq!(vec.read(1), b"ddd".to_vec());

    assert_eq!(vec.swap_remove(0), Some(b"aaa".to_vec()));
    assert_eq!(vec.read(0), b"ddd".to_vec());

    assert_eq!(vec.swap_remove(0), Some(b"ddd".to_vec()));
    assert_eq!(vec.len(), 0);
}

#[test]
fn no_drop_hands_nothing_back() {
    let mut vec = byte_vec(2, false);
    push_bytes(&mut vec, &[1, 2]);
    push_bytes(&mut vec, &[3, 4]);
    assert_eq!(vec.swap_remove(0), None);
    assert_eq!(vec.read(0), vec![3, 4]);
    assert!(vec.clear().is_empty());
    assert_eq!(vec.len(), 0);
}

#[test]
fn capacity_doubles_from_zero() {
    let mut vec = byte_vec(4, false);
    assert_eq!(vec.capacity(), 0);
    push_bytes(&mut vec, &[0; 4]);
    assert_eq!(vec.capacity(), 1);
    push_bytes(&mut vec, &[0; 4]);
    assert_eq!(vec.capacity(), 2);
    push_bytes(&mut vec, &[0; 4]);
    assert_eq!(vec.capacity(), 4);
    vec.reserve(10);
    assert_eq!(vec.capacity(), 13);
    assert_eq!(vec.capacity_layout(), ElemLayout { size: 52, align: 1 });
}

#[test]
fn zero_sized_elements_allocate_nothing() {
    let mut vec = ErasedVec::new(ElemLayout { size: 0, align: 1 }, true);
    assert_eq!(vec.capacity(), usize::MAX);
    for _ in 0..3 {
        vec.push();
    }
    assert_eq!(vec.len(), 3);
    assert_eq!(vec.capacity_layout().size, 0);
    assert_eq!(vec.swap_remove(1), Some(vec![]));
    assert_eq!(vec.clear().len(), 2);
}

#[test]
fn transfer_moves_without_destroying() {
    let mut src = byte_vec(2, true);
    let mut dst = byte_vec(2, true);
    push_bytes(&mut src, &[1, 1]);
    push_bytes(&mut src, &[2, 2]);
    push_bytes(&mut src, &[3, 3]);
    push_bytes(&mut dst, &[9, 9]);
    src.transfer_elem(&mut dst, 0);
    assert_eq!(src.len(), 2);
    assert_eq!(src.read(0), vec![3, 3]);
    assert_eq!(src.read(1), vec![2, 2]);
    assert_eq!(dst.len(), 2);
    assert_eq!(dst.read(1), vec![1, 1]);
    // Every value leaves storage exactly once.
    let mut all: Vec<Vec<u8>> = src.clear();
    all.extend(dst.clear());
    all.sort();
    assert_eq!(all, vec![vec![1, 1], vec![2, 2], vec![3, 3], vec![9, 9]]);
}

#[test]
fn push_after_reserve_keeps_capacity() {
    let mut vec = byte_vec(2, false);
    vec.reserve(3);
    assert_eq!(vec.capacity(), 3);
    for _ in 0..3 {
        push_bytes(&mut vec, &[5, 5]);
        assert_eq!(vec.capacity(), 3);
    }
    push_bytes(&mut vec, &[6, 6]);
    assert_eq!(vec.capacity(), 6);
    assert_eq!(vec.len(), 4);
}
