use std::collections::{BTreeMap, BTreeSet};

use gcviz::allocator::Allocator;
use gcviz::free_list::FreeList;
use gcviz::heap::Heap;
use gcviz::heap::MemoryCell;
use gcviz::object::Field;
use gcviz::object::ObjAddr;
use gcviz::object::Object;

fn create_heap_with_free_list(alignment: usize, free_list: Vec<(ObjAddr, usize)>) -> Heap {
    Heap {
        roots: BTreeSet::new(),
        objects: BTreeMap::new(),
        memory: vec![MemoryCell::free(); 10], // Assuming a size of 10 for simplicity
        free_list: FreeList::new(free_list),
        alignment,
    }
}

#[test]
fn test_find_suitable_free_block_with_sufficient_space() {
    let mut heap = create_heap_with_free_list(2, vec![(0, 4)]);
    let allocator = Allocator {};

    let result = allocator.find_suitable_free_block(&mut heap, 3);
    assert_eq!(result, Some(0));
    assert_eq!(heap.free_list.to_vec(), vec![(3, 1)]);
}

#[test]
fn test_find_suitable_free_block_first_block() {
    let mut heap = create_heap_with_free_list(2, vec![(2, 2), (8, 2)]);
    let allocator = Allocator {};

    let result = allocator.find_suitable_free_block(&mut heap, 2);
    assert_eq!(result, Some(2));
    assert_eq!(heap.free_list.to_vec(), vec![(8, 2)]);
}

#[test]
fn test_find_suitable_free_block_without_sufficient_space() {
    let mut heap = create_heap_with_free_list(2, vec![(0, 2)]);
    let allocator = Allocator {};

    let result = allocator.find_suitable_free_block(&mut heap, 3);
    assert_eq!(result, None);
    assert_eq!(heap.free_list.to_vec(), vec![(0, 2)]); // Free list remains unchanged
}

#[test]
fn test_find_suitable_free_block_with_alignment() {
    let mut heap = create_heap_with_free_list(2, vec![(1, 4)]);
    let allocator = Allocator {};

    let result = allocator.find_suitable_free_block(&mut heap, 3);
    assert_eq!(result, Some(2)); // Starts at 2 because of alignment
    assert_eq!(heap.free_list.to_vec(), vec![(1, 1)]); // Only 1 cell before the allocated space
}

#[test]
fn test_split_free_block_no_remainder() {
    let mut heap = Heap::new(8, 0);
    heap.free_list = FreeList::new(vec![(0, 8)]);

    let allocator = Allocator::new();
    allocator.split_free_block(&mut heap, 0, 8, 0, 4);

    assert_eq!(heap.free_list.to_vec(), vec![(4, 4)]);
}

#[test]
fn test_split_free_block_remainder_before() {
    let mut heap = Heap::new(10, 4);
    heap.free_list = FreeList::new(vec![(0, 8)]);

    let allocator = Allocator::new();
    allocator.split_free_block(&mut heap, 0, 8, 2, 6);

    assert_eq!(heap.free_list.to_vec(), vec![(0, 2), (6, 2)]);
}

#[test]
fn test_split_free_block_remainder_after() {
    let mut heap = Heap::new(10, 4);
    heap.free_list = FreeList::new(vec![(0, 8)]);

    let allocator = Allocator::new();
    allocator.split_free_block(&mut heap, 0, 8, 0, 6);

    assert_eq!(heap.free_list.to_vec(), vec![(6, 2)]);
}

#[test]
fn test_split_free_block_remainders_both_sides() {
    let mut heap = Heap::new(10, 4);
    heap.free_list = FreeList::new(vec![(0, 8)]);

    let allocator = Allocator::new();
    allocator.split_free_block(&mut heap, 0, 8, 2, 6);

    assert_eq!(heap.free_list.to_vec(), vec![(0, 2), (6, 2)]);
}

#[test]
fn test_split_free_block_no_matching_block() {
    let mut heap = Heap::new(8, 4);
    heap.free_list = FreeList::new(vec![(0, 4), (4, 4)]);

    let allocator = Allocator::new();
    allocator.split_free_block(&mut heap, 8, 4, 8, 12);

    assert_eq!(heap.free_list.to_vec(), vec![(0, 4), (4, 4)]); // Free list remains unchanged.
}

#[test]
fn test_allocate_with_sufficient_space() {
    let mut heap = create_heap_with_free_list(2, vec![(0, 4)]);
    let allocator = Allocator {};
    let object = Object::new(vec![
        Field::new_scalar(1),
        Field::new_scalar(2),
        Field::new_scalar(3),
    ]);

    let result = allocator.allocate(&mut heap, object, true);
    assert!(result.is_ok());
    assert_eq!(heap.objects.len(), 1); // The object should be added to `heap.objects`.
    assert_eq!(heap.roots.len(), 1); // Since it's marked as root, it should be added to `heap.roots`.
    assert_eq!(heap.free_list.to_vec(), vec![(3, 1)]); // 1 remaining cell after allocation.
}

#[test]
fn test_allocate_without_sufficient_space() {
    let mut heap = create_heap_with_free_list(2, vec![(0, 2)]);
    let allocator = Allocator {};
    let object = Object::new(vec![
        Field::new_scalar(1),
        Field::new_scalar(2),
        Field::new_scalar(3),
    ]);

    let result = allocator.allocate(&mut heap, object, true);
    assert!(result.is_err()); // Allocation should fail.
    assert_eq!(heap.objects.len(), 0); // No object should be added.
    assert_eq!(heap.free_list.to_vec(), vec![(0, 2)]); // Free list should remain unchanged.
}

#[test]
fn test_allocate_multiple_objects() {
    let mut heap = create_heap_with_free_list(2, vec![(0, 10)]);
    let allocator = Allocator {};

    let object1 = Object::new(vec![Field::new_scalar(1), Field::new_scalar(2)]);
    let object2 = Object::new(vec![
        Field::new_scalar(3),
        Field::new_scalar(4),
        Field::new_scalar(5),
    ]);
    let object3 = Object::new(vec![Field::new_scalar(6), Field::new_scalar(7)]);

    allocator.allocate(&mut heap, object1, true).unwrap();
    allocator.allocate(&mut heap, object2, true).unwrap();
    allocator.allocate(&mut heap, object3, false).unwrap();

    assert_eq!(heap.objects.len(), 3); // Three objects should be added.
    assert_eq!(heap.roots.len(), 2); // Only two objects were marked as roots.
                                     // Free list should have remaining spaces depending on the sizes and alignment of the objects.
}

#[test]
fn test_allocate_after_deallocate() {
    let mut heap = create_heap_with_free_list(2, vec![(0, 10)]);
    let allocator = Allocator {};

    let object1 = Object::new(vec![Field::new_scalar(1), Field::new_scalar(2)]);
    let addr1 = allocator.allocate(&mut heap, object1, true).unwrap();

    heap.free_object(addr1).unwrap();

    let object2 = Object::new(vec![Field::new_scalar(3), Field::new_scalar(4)]);
    let addr2 = allocator.allocate(&mut heap, object2, false).unwrap();

    assert_eq!(addr1, addr2); // Should allocate in the same spot as the deallocated object.
    assert_eq!(heap.objects.len(), 1);
    assert_eq!(heap.roots.len(), 0);
}

#[test]
fn test_calc_memory_after_allocate() {
    let mut heap = create_heap_with_free_list(2, vec![(0, 10)]);
    let allocator = Allocator {};

    assert_eq!(heap.calc_free_memory(), 10);

    let object1 = Object::new(vec![Field::new_scalar(1), Field::new_scalar(2)]);
    let addr1 = allocator.allocate(&mut heap, object1, true).unwrap();

    assert_eq!(heap.calc_free_memory(), 8);

    let res = heap.free_object(addr1);
    assert_eq!(res, Ok(()));
    assert_eq!(heap.calc_free_memory(), 10);
}

#[test]
fn test_free_object() {
    let mut heap = create_heap_with_free_list(2, vec![(0, 10)]);
    let allocator = Allocator {};
    let object = Object::new(vec![
        Field::new_scalar(1),
        Field::new_scalar(2),
        Field::new_scalar(3),
    ]);

    let result = allocator.allocate(&mut heap, object, true);
    assert_eq!(result, Ok(0));
    assert_eq!(heap.calc_free_memory(), 7);
    assert_eq!(heap.objects.len(), 1);
    assert_eq!(heap.roots.len(), 1);

    let res = heap.free_object(result.unwrap());
    assert_eq!(res, Ok(()));
    assert_eq!(heap.calc_free_memory(), 10);
    assert!(heap.objects.is_empty());
    assert!(heap.roots.is_empty());
    assert_eq!(heap.free_list.inner.len(), 1);
}
