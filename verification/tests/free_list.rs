use gcviz::free_list::FreeList;

#[test]
fn test_no_merge_needed() {
    let mut free_list = FreeList::new(vec![(1, 3), (5, 7)]);
    free_list.merge_adjacent_blocks();

    assert_eq!(free_list.to_vec(), vec![(1, 3), (5, 7)]);
}

#[test]
fn test_merge_adjacent_ranges() {
    let mut free_list = FreeList::new(vec![(1, 3), (4, 7)]);
    free_list.merge_adjacent_blocks();

    assert_eq!(free_list.to_vec(), vec![(1, 10)]);
}

#[test]
fn test_merge_overlapping_ranges() {
    let mut free_list = FreeList::new(vec![(1, 5), (3, 7)]);
    free_list.merge_adjacent_blocks();

    assert_eq!(free_list.to_vec(), vec![(1, 9)]);
}

#[test]
fn test_merge_multiple_ranges_collapse_all() {
    let mut free_list = FreeList::new(vec![(1, 3), (4, 7), (10, 13), (12, 15)]);
    free_list.merge_adjacent_blocks();

    assert_eq!(free_list.to_vec(), vec![(1, 26)]);
}

#[test]
fn test_merge_multiple_ranges_two_left() {
    let mut free_list = FreeList::new(vec![(1, 3), (4, 7), (12, 5), (17, 5)]);
    free_list.merge_adjacent_blocks();

    assert_eq!(free_list.to_vec(), vec![(1, 10), (12, 10)]);
}

#[test]
fn test_single_block_no_merge() {
    let mut free_list = FreeList::new(vec![(1, 5)]);
    free_list.merge_adjacent_blocks();
    assert_eq!(free_list.to_vec(), vec![(1, 5)]);
}

#[test]
fn test_merge_multiple_tiny_blocks() {
    let mut free_list = FreeList::new(vec![(1, 1), (2, 1), (3, 1), (5, 1), (6, 1)]);
    free_list.merge_adjacent_blocks();
    assert_eq!(free_list.to_vec(), vec![(1, 3), (5, 2)]);
}

#[test]
fn test_remove_middle_block() {
    let mut free_list = FreeList::new(vec![(1, 5), (6, 5), (11, 5)]);
    free_list.remove(6);
    assert_eq!(free_list.to_vec(), vec![(1, 5), (11, 5)]);
}

#[test]
fn test_insert_block_in_between() {
    let mut free_list = FreeList::new(vec![(1, 5), (11, 5)]);
    free_list.insert(6, 5);
    assert_eq!(free_list.to_vec(), vec![(1, 15)]);
}

#[test]
fn test_adjacent_single_unit_blocks() {
    let mut free_list = FreeList::new(vec![(1, 1), (2, 1), (4, 1)]);
    free_list.merge_adjacent_blocks();
    assert_eq!(free_list.to_vec(), vec![(1, 2), (4, 1)]);
}

#[test]
fn test_large_input() {
    let blocks: Vec<(usize, usize)> = (0..1000).map(|x| (x, 1)).collect();
    let mut free_list = FreeList::new(blocks);
    free_list.merge_adjacent_blocks();
    assert_eq!(free_list.to_vec(), vec![(0, 1000)]);
}

#[test]
fn test_insert() {
    let mut free_list = FreeList::new(vec![(8, 8)]);
    free_list.insert(8, 4);
    assert_eq!(free_list.inner.len(), 1);
    assert_eq!(free_list.inner.get(&8), Some(&8));
    free_list.insert(8, 16);
    assert_eq!(free_list.inner.len(), 1);
    assert_eq!(free_list.inner.get(&8), Some(&16));
    free_list.insert(24, 2);
    assert_eq!(free_list.inner.len(), 1);
    assert_eq!(free_list.inner.get(&8), Some(&18));
    free_list.insert(28, 2);
    assert_eq!(free_list.inner.len(), 2);
    assert_eq!(free_list.inner.get(&8), Some(&18));
    assert_eq!(free_list.inner.get(&28), Some(&2));
}
