use gcviz::error::VMError;
use gcviz::heap::Heap;
use gcviz::object::Field;
use gcviz::object::Object;

#[test]
fn test_new_heap() {
    let heap = Heap::new(100, 0);
    assert_eq!(heap.memory.len(), 100);
    assert_eq!(heap.calc_free_memory(), 100);
    assert!(heap.objects.is_empty());
}

#[test]
fn test_lookup_object_addr() {
    let mut heap = Heap::new(10, 0);
    let obj = Object::new(vec![
        Field::new_scalar(1),
        Field::new_scalar(2),
        Field::new_scalar(3),
    ]);
    heap.objects.insert(0, obj);
    assert_eq!(heap.lookup_object_addr(0), Ok(0));
    assert_eq!(heap.lookup_object_addr(1), Ok(0));
    assert_eq!(heap.lookup_object_addr(2), Ok(0));
    assert_eq!(heap.lookup_object_addr(3), Err(VMError::SegmentationFault));
}

#[test]
fn test_next_object_addr() {
    let mut heap = Heap::new(100, 0);

    // Add objects to the heap.
    let o1 = Object::new(vec![Field::new_scalar(1)]);
    heap.objects.insert(0, o1);

    let o2 = Object::new(vec![Field::new_scalar(1)]);
    heap.objects.insert(2, o2);

    let o3 = Object::new(vec![Field::new_scalar(1)]);
    heap.objects.insert(10, o3);

    // Check next object address for existing objects and some other addresses.
    assert_eq!(heap.next_object_addr(0), Some(2));
    assert_eq!(heap.next_object_addr(2), Some(10));
    assert_eq!(heap.next_object_addr(10), None); // last object, should return None
    assert_eq!(heap.next_object_addr(1), None); // address within the first object
    assert_eq!(heap.next_object_addr(3), None); // address between two objects
    assert_eq!(heap.next_object_addr(11), None); // address within the last object
    assert_eq!(heap.next_object_addr(100), None); // address outside of any object
}

#[test]
fn test_last_object_addr() {
    let mut heap = Heap::new(100, 0);

    // Initially, the heap is empty, so the last object address should be None.
    assert_eq!(heap.last_object_addr(), None);

    // Add an object and check.
    let o1 = Object::new(vec![Field::new_scalar(1)]);
    heap.objects.insert(0, o1);
    assert_eq!(heap.last_object_addr(), Some(0));

    // Add another object and check again.
    let o2 = Object::new(vec![Field::new_scalar(1)]);
    heap.objects.insert(2, o2);
    assert_eq!(heap.last_object_addr(), Some(2));

    // Add yet another object and check.
    let o3 = Object::new(vec![Field::new_scalar(1)]);
    heap.objects.insert(10, o3);
    assert_eq!(heap.last_object_addr(), Some(10));
}

#[test]
fn test_next_prev_object_addr() {
    let mut heap = Heap::new(100, 0);
    // Add multiple objects and navigate between them using next/prev functions.
    let o1 = Object::new(vec![Field::new_scalar(1)]);
    let o2 = Object::new(vec![Field::new_scalar(1)]);
    let o3 = Object::new(vec![Field::new_scalar(1)]);
    heap.objects.insert(0, o1);
    heap.objects.insert(10, o2);
    heap.objects.insert(20, o3);

    // Check the next address of various addresses.
    assert_eq!(heap.next_object_addr(0), Some(10));
    assert_eq!(heap.next_object_addr(10), Some(20));
    assert_eq!(heap.next_object_addr(20), None);

    // Check the previous address of various addresses.
    assert_eq!(heap.prev_object_addr(5), None);
    assert_eq!(heap.prev_object_addr(10), Some(0));
    assert_eq!(heap.prev_object_addr(20), Some(10));

    // Check for wrong addresses.
    assert_eq!(heap.next_object_addr(15), None);
    assert_eq!(heap.prev_object_addr(15), None);
}
