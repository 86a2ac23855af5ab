//! Where a leaf is split.

use luks_core::fs::btrfs::tree::{Key, LeafItem};
use luks_core::fs::btrfs::write::cow::plan_leaf_split;

#[test]
fn test_plan_leaf_split_shape_1_item_at_end_of_left() {
    let node_size = 4096;
    let mut items = Vec::new();
    // Create 2 small items
    items.push(LeafItem {
        key: Key::new(256, 1, 0),
        data: vec![0u8; 100],
    });
    items.push(LeafItem {
        key: Key::new(257, 1, 0),
        data: vec![0u8; 100],
    });

    let new_item = LeafItem {
        key: Key::new(256, 1, 50),
        data: vec![0u8; 100],
    };

    // pos = 1 (inserted between item 0 and item 1)
    let groups = plan_leaf_split(&items, 1, new_item, node_size);
    assert_eq!(groups.len(), 2);
    assert_eq!(groups[0].len(), 2); // item 0 + new_item
    assert_eq!(groups[1].len(), 1); // item 1
    assert_eq!(groups[0][0].key, Key::new(256, 1, 0));
    assert_eq!(groups[0][1].key, Key::new(256, 1, 50));
    assert_eq!(groups[1][0].key, Key::new(257, 1, 0));
}

#[test]
fn test_plan_leaf_split_shape_2_item_at_start_of_right() {
    let node_size = 1024; // smaller node size to force shape 2
    // Left already has large item
    let _items = vec![
        LeafItem {
            key: Key::new(256, 1, 0),
            data: vec![0u8; 700], // fits in 1024 (header 101 + item 25 + 700 = 826 <= 1024)
        },
        LeafItem {
            key: Key::new(258, 1, 0),
            data: vec![0u8; 50],
        },
    ];

    let new_item = LeafItem {
        key: Key::new(257, 1, 0),
        data: vec![0u8; 50],
    };

    // pos = 1. Left (700) + new_item (50) would be 826 + 75 = 901 <= 1024, so shape 1 fits.
    // Let's make left + new_item exceed node_size, but new_item + right fit.
    let large_left = vec![
        LeafItem {
            key: Key::new(256, 1, 0),
            data: vec![0u8; 850],
        },
        LeafItem {
            key: Key::new(258, 1, 0),
            data: vec![0u8; 50],
        },
    ];
    let groups = plan_leaf_split(&large_left, 1, new_item.clone(), node_size);
    assert_eq!(groups.len(), 2);
    assert_eq!(groups[0].len(), 1); // item 0 (850 bytes)
    assert_eq!(groups[1].len(), 2); // new_item (50) + item 1 (50)
    assert_eq!(groups[0][0].key, Key::new(256, 1, 0));
    assert_eq!(groups[1][0].key, Key::new(257, 1, 0));
    assert_eq!(groups[1][1].key, Key::new(258, 1, 0));
}

#[test]
fn test_plan_leaf_split_shape_3_near_max_item_isolated() {
    let node_size = 4096;
    let items = vec![
        LeafItem {
            key: Key::new(256, 1, 0),
            data: vec![0u8; 1500],
        },
        LeafItem {
            key: Key::new(258, 1, 0),
            data: vec![0u8; 1500],
        },
    ];

    // New item is near max node size (e.g. 3500 bytes)
    let near_max_item = LeafItem {
        key: Key::new(257, 1, 0),
        data: vec![0u8; 3500],
    };

    // pos = 1 (between 256 and 258).
    // shape 1: left (1500) + near_max (3500) = 5000 > 4096 (overflows)
    // shape 2: near_max (3500) + right (1500) = 5000 > 4096 (overflows)
    // shape 3: left (1500) | near_max (3500) | right (1500) -> 3 leaves!
    let groups = plan_leaf_split(&items, 1, near_max_item, node_size);
    assert_eq!(groups.len(), 3);
    assert_eq!(groups[0].len(), 1);
    assert_eq!(groups[1].len(), 1);
    assert_eq!(groups[2].len(), 1);
    assert_eq!(groups[0][0].key, Key::new(256, 1, 0));
    assert_eq!(groups[1][0].key, Key::new(257, 1, 0));
    assert_eq!(groups[2][0].key, Key::new(258, 1, 0));
}
