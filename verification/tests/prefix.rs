use brotli_dec::decoder::{Command, DistanceCache};
use brotli_dec::huffman::TreeGroup;
use brotli_dec::prefix::{CmdLutElement, prefix_code_ranges};

#[test]
fn distance_ranges_match_the_table() {
    let r = prefix_code_ranges();
    assert_eq!(r.len(), 26);
    assert_eq!((r[0].offset, r[0].nbits), (1, 2));
    assert_eq!((r[18].offset, r[18].nbits), (369, 7));
    assert_eq!((r[25].offset, r[25].nbits), (16625, 24));
}

#[test]
fn command_from_lut_adds_extra_bits() {
    let e = CmdLutElement {
        insert_len_extra_bits: 2,
        copy_len_extra_bits: 3,
        distance_code: false,
        context: 1,
        insert_len_offset: 6,
        copy_len_offset: 10,
    };
    let c = Command::from_lut(&e, 3, 5);
    assert_eq!(c.insert_length, 9);
    assert_eq!(c.copy_length, 15);
    assert!(c.is_implicit_distance);
}

#[test]
fn distance_cache_keeps_most_recent_first() {
    let mut c = DistanceCache::new();
    assert_eq!((c.get(0), c.get(1), c.get(2), c.get(3)), (16, 15, 11, 4));
    c.push(42);
    assert_eq!((c.get(0), c.get(1), c.get(2), c.get(3)), (42, 16, 15, 11));
    c.push(7);
    assert_eq!((c.get(0), c.get(1)), (7, 42));
}

#[test]
fn tree_group_builds_trees_in_place() {
    let mut g = TreeGroup::new(2, 4);
    assert_eq!(g.tree_count(), 2);
    g.tree_mut(1).build_from_code_lengths(&vec![1u8, 1]).unwrap();
    let _t = g.tree(1);
}
