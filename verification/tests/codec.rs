//! Round trips of the page codec, the row format and the byte helpers.

use sqlite_rs::btree::intern::{Child, Intern};
use sqlite_rs::btree::leaf::Leaf;
use sqlite_rs::btree::node::Node;
use sqlite_rs::btree::utils::{read_u32_from, write_opt_u32_to};
use sqlite_rs::pager::PAGE_SIZE;
use sqlite_rs::row::{Row, ROW_SIZE};
use sqlite_rs::table::Table;

fn sample_row_bytes(seed: u8) -> Vec<u8> {
    let mut row = vec![0u8; ROW_SIZE];
    for (i, b) in row.iter_mut().enumerate() {
        *b = seed.wrapping_add(i as u8);
    }
    row
}

#[test]
fn be32_round_trip() {
    for &v in &[0u32, 1, 255, 256, 0xDEAD_BEEF, u32::MAX] {
        let mut buf: Vec<u8> = Vec::new();
        write_opt_u32_to(&mut buf, Some(v));
        assert_eq!(buf.len(), 4);
        let back = read_u32_from(&buf, 0);
        if v == 0 {
            assert_eq!(back, None);
        } else {
            assert_eq!(back, Some(v));
        }
    }
}

#[test]
fn leaf_page_round_trip() {
    let mut leaf = Leaf::new(false, Some(0), Some(3));
    leaf.insert_row(10, &sample_row_bytes(1)).unwrap();
    leaf.insert_row(5, &sample_row_bytes(2)).unwrap();
    leaf.insert_row(7, &sample_row_bytes(3)).unwrap();
    let page = leaf.serialize();
    assert_eq!(page.len(), PAGE_SIZE);

    let back = Leaf::new_from_page(&page).unwrap();
    assert_eq!(back.is_root, leaf.is_root);
    assert_eq!(back.parent, leaf.parent);
    assert_eq!(back.next, leaf.next);
    assert_eq!(back.cells.len(), 3);
    let keys: Vec<u32> = back.cells.iter().map(|c| c.key).collect();
    assert_eq!(keys, vec![5, 7, 10]);
    assert_eq!(back.cells[0].row, sample_row_bytes(2));
    assert_eq!(back.cells[1].row, sample_row_bytes(3));
    assert_eq!(back.cells[2].row, sample_row_bytes(1));

    // Encoding the decoded leaf gives the same page image back.
    let page2 = back.serialize();
    assert_eq!(page, page2);
}

#[test]
fn empty_root_leaf_round_trip() {
    let leaf = Leaf::new(true, None, None);
    let page = leaf.serialize();
    let back = Leaf::new_from_page(&page).unwrap();
    assert!(back.is_root);
    assert_eq!(back.parent, None);
    assert_eq!(back.next, None);
    assert_eq!(back.cells.len(), 0);
    assert_eq!(back.serialize(), page);
}

#[test]
fn intern_page_round_trip() {
    let children = vec![
        Child::new(2, Some(6)),
        Child::new(3, Some(13)),
        Child::new(1, None),
    ];
    let intern = Intern::new(false, Some(0), children);
    let page = intern.serialize();
    assert_eq!(page.len(), PAGE_SIZE);

    let back = Intern::new_from_page(&page).unwrap();
    assert_eq!(back.is_root, intern.is_root);
    assert_eq!(back.parent, intern.parent);
    assert_eq!(back.children.len(), 3);
    assert_eq!(back.children[0].pg_idx, 2);
    assert_eq!(back.children[0].key_max, Some(6));
    assert_eq!(back.children[1].pg_idx, 3);
    assert_eq!(back.children[1].key_max, Some(13));
    assert_eq!(back.children[2].pg_idx, 1);
    assert_eq!(back.children[2].key_max, None);
    assert_eq!(back.serialize(), page);
}

#[test]
fn node_dispatch_on_first_byte() {
    let leaf = Leaf::new(true, None, None);
    let leaf_page = leaf.serialize();
    assert_eq!(leaf_page[0], 1);
    assert!(matches!(Node::new_from_page(&leaf_page), Ok(Node::Leaf(_))));

    let intern = Intern::new(true, None, vec![Child::new(1, Some(4)), Child::new(2, None)]);
    let intern_page = intern.serialize();
    assert_eq!(intern_page[0], 0);
    assert!(matches!(Node::new_from_page(&intern_page), Ok(Node::Intern(_))));
}

#[test]
fn corrupt_leaf_cell_count_is_refused() {
    let leaf = Leaf::new(true, None, None);
    let mut page = leaf.serialize();
    // Overwrite the cell count with a value beyond the leaf capacity.
    page[10] = 0;
    page[11] = 0;
    page[12] = 0;
    page[13] = 200;
    assert!(Leaf::new_from_page(&page).is_err());
}

#[test]
fn row_round_trip() {
    let row = Row::build(42, b"alice", b"alice@example.com").unwrap();
    let bytes = row.serialize();
    assert_eq!(bytes.len(), ROW_SIZE);
    let back = Row::deserialize_from(&bytes);
    assert_eq!(back.key(), 42);
    assert_eq!(back.username()[..5], b"alice"[..]);
    assert!(back.username()[5..].iter().all(|&b| b == 0));
    assert_eq!(back.email()[..17], b"alice@example.com"[..]);
    assert!(back.email()[17..].iter().all(|&b| b == 0));
    assert_eq!(back.serialize(), bytes);
}

#[test]
fn row_length_limits() {
    let name32 = vec![b'a'; 32];
    let mail255 = vec![b'b'; 255];
    assert!(Row::build(1, &name32, &mail255).is_ok());

    let name33 = vec![b'a'; 33];
    assert!(Row::build(1, &name33, &mail255).is_err());
    let mail256 = vec![b'b'; 256];
    assert!(Row::build(1, &name32, &mail256).is_err());
}

#[test]
fn find_row_returns_first_cell_at_or_after_key() {
    let mut leaf = Leaf::new(true, None, None);
    leaf.insert_row(10, &sample_row_bytes(1)).unwrap();
    leaf.insert_row(20, &sample_row_bytes(2)).unwrap();
    assert_eq!(leaf.find_row(10).unwrap().key, 10);
    assert_eq!(leaf.find_row(15).unwrap().key, 20);
    assert!(leaf.find_row(21).is_err());
    assert_eq!(leaf.search_cell_idx_by_key(10), 0);
    assert_eq!(leaf.search_cell_idx_by_key(11), 1);
    assert_eq!(leaf.key_max(), 20);
    assert_eq!(leaf.size(), 2);
}

#[test]
fn node_accessors_dispatch_by_variant() {
    let mut node = Node::Leaf(Leaf::new(true, None, None));
    assert!(node.is_leaf());
    assert!(node.get_is_root());
    assert_eq!(node.get_parent(), None);
    node.set_is_root(false);
    node.set_parent(Some(7));
    assert!(!node.get_is_root());
    assert_eq!(node.get_parent(), Some(7));
    assert!(node.as_leaf().is_ok());
    assert!(node.as_intern().is_err());

    let intern = Intern::new(false, Some(0), vec![Child::new(1, Some(4)), Child::new(2, None)]);
    let inode = Node::Intern(intern);
    assert!(!inode.is_leaf());
    assert!(inode.as_intern().is_ok());
    assert!(inode.as_leaf().is_err());
}

#[test]
fn unsorted_leaf_page_is_rejected_at_open() {
    let mut leaf = Leaf::new(true, None, None);
    leaf.insert_row(1, &sample_row_bytes(1)).unwrap();
    leaf.insert_row(2, &sample_row_bytes(2)).unwrap();
    let mut page = leaf.serialize();
    // Swap the two stored keys so that the page is out of order.
    page[17] = 2;
    page[14 + 295 + 3] = 1;
    assert!(Table::open_db(&page.to_vec()).is_err());
}

#[test]
fn derived_capacity_constants() {
    assert_eq!(ROW_SIZE, 291);
    assert_eq!(PAGE_SIZE, 4096);
    assert_eq!(sqlite_rs::btree::leaf::HEADER_SIZE, 14);
    assert_eq!(sqlite_rs::btree::leaf::CELL_SIZE, 295);
    assert_eq!(sqlite_rs::btree::leaf::MAX_CELLS, 13);
    assert_eq!(sqlite_rs::btree::leaf::SPLIT_IDX, 7);
    assert_eq!(sqlite_rs::pager::MAX_PAGES, 100);
}
