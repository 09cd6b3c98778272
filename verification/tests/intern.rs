//! Ordered insertion of children into an internal node.

use sqlite_rs::btree::intern::{Child, Intern};

fn setup(keys: &[u32]) -> Intern {
    let children: Vec<Child> = keys.iter().map(|&i| Child::new(i as usize, Some(i))).collect();
    Intern::new(false, None, children)
}

fn bound_keys(parent: &Intern) -> Vec<u32> {
    parent.children.iter().map(|ch| ch.key_max.unwrap()).collect()
}

#[test]
fn insert_rightmost_child() {
    let mut parent = setup(&[1, 3]);
    parent.insert_child(4, 4).unwrap();
    let keys: Vec<u32> = bound_keys(&parent);
    assert_eq!(keys, vec![1, 3, 4]);
}

#[test]
fn insert_mid_child() {
    let mut parent = setup(&[1, 3]);
    parent.insert_child(2, 2).unwrap();
    let keys: Vec<u32> = bound_keys(&parent);
    assert_eq!(keys, vec![1, 2, 3]);
}

#[test]
fn insert_leaftmost_child() {
    let mut parent = setup(&[1, 3]);
    parent.insert_child(0, 0).unwrap();
    let keys: Vec<u32> = bound_keys(&parent);
    assert_eq!(keys, vec![0, 1, 3]);
}

#[test]
fn insert_rightmost_in_3_child_parent() {
    let mut parent = setup(&[1, 2, 3]);
    parent.insert_child(4, 4).unwrap();
    let keys: Vec<u32> = bound_keys(&parent);
    assert_eq!(keys, vec![1, 2, 3, 4]);
}
