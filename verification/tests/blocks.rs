//! Block-layer and size-class checks, directly against a small region.

use kernel::arena::Arena;
use kernel::node::Node;

fn region(words: usize) -> Vec<u64> {
    vec![0u64; words]
}

#[test]
fn create_writes_matching_boundary_tags() {
    let mut mem = region(16);
    let node = Node::new(&mut mem, 1, 64);
    assert_eq!(node.buffer, 1);
    assert_eq!(mem[1], 64); // head tag
    assert_eq!(mem[2], 0); // previous link cleared
    assert_eq!(mem[3], 0); // next link cleared
    assert_eq!(mem[8], 64); // tail tag, 64 bytes = 8 words after the head
    assert_eq!(node.size(&mem), 64);
    assert!(node.is_free(&mem));
}

#[test]
fn flag_lives_in_bit_zero_of_both_tags() {
    let mut mem = region(16);
    let node = Node::new(&mut mem, 1, 64);
    node.set_free(&mut mem, false);
    assert_eq!(mem[1], 65);
    assert_eq!(mem[8], 65);
    assert!(!node.is_free(&mem));
    assert_eq!(node.size(&mem), 64); // size reads with the flag masked off
    node.set_free(&mut mem, true);
    assert_eq!(mem[1], 64);
    assert!(node.is_free(&mem));
}

#[test]
fn split_yields_two_adjacent_blocks_summing_to_the_original() {
    let mut mem = region(32);
    let node = Node::new(&mut mem, 1, 240);
    let (first, second) = node.split(&mut mem, 80);
    assert_eq!(first.buffer, 1);
    assert_eq!(second.buffer, 1 + 80 / 8);
    assert_eq!(first.size(&mem) + second.size(&mem), 240);
    assert!(first.is_free(&mem) && second.is_free(&mem));
}

#[test]
fn coalesce_sums_the_sizes_of_adjacent_blocks() {
    let mut mem = region(32);
    let node = Node::new(&mut mem, 1, 240);
    let (first, second) = node.split(&mut mem, 80);
    let merged = first.coalesce(&mut mem, second);
    assert_eq!(merged.buffer, 1);
    assert_eq!(merged.size(&mem), 240);
    assert!(merged.is_free(&mem));
}

#[test]
fn header_reads_the_four_bookkeeping_words() {
    let mut mem = region(16);
    let node = Node::new(&mut mem, 1, 64);
    let header = node.header(&mem);
    assert_eq!(header.size, 64);
    assert_eq!(header.previous, 0);
    assert_eq!(header.next, 0);
    assert_eq!(header.size_end, 64);
}

#[test]
fn class_is_the_highest_set_bit_of_size_minus_sixteen() {
    assert_eq!(Arena::calculate_class(17), 0);
    assert_eq!(Arena::calculate_class(18), 1);
    assert_eq!(Arena::calculate_class(32), 4);
    assert_eq!(Arena::calculate_class(47), 4);
    assert_eq!(Arena::calculate_class(48), 5);
    assert_eq!(Arena::calculate_class(80), 6);
    assert_eq!(Arena::calculate_class(1040), 10);
    assert_eq!(Arena::calculate_class(u64::MAX), 63);
}

#[test]
fn class_is_non_decreasing_in_the_size() {
    let mut last = 0u32;
    for size in 17..4096u64 {
        let class = Arena::calculate_class(size);
        assert!(class >= last);
        last = class;
    }
}
