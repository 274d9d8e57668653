use cass_store::io::{OffsetCodec, TokenCodec};
use cass_store::sstable::index::IndexFileCreator;
use cass_store::util::CassError;

type Creator = IndexFileCreator<u128, u64, TokenCodec, OffsetCodec, OffsetCodec>;

fn entry(key: u128, value: u64) -> Vec<u8> {
    let mut bytes = key.to_be_bytes().to_vec();
    bytes.extend_from_slice(&value.to_be_bytes());
    bytes
}

fn node(kind: u8, entries: &[(u128, u64)]) -> Vec<u8> {
    let mut bytes = vec![kind];
    bytes.extend_from_slice(&(entries.len() as u16).to_be_bytes());
    for (key, value) in entries {
        bytes.extend_from_slice(&entry(*key, *value));
    }
    bytes
}

fn built(arity: usize, count: u64) -> (Option<u64>, Vec<u8>) {
    let mut creator = Creator::new(arity, Vec::new()).unwrap();
    for i in 1..=count {
        creator.add_entry(u128::from(i) * 10, i * 100).unwrap();
    }
    creator.finalize().unwrap()
}

/// Splits an index file into its nodes: offset, kind and entries.
fn nodes(bytes: &[u8]) -> Vec<(u64, u8, Vec<(u128, u64)>)> {
    let mut result = Vec::new();
    let mut pos = 0;
    while pos < bytes.len() {
        let kind = bytes[pos];
        let count = u16::from_be_bytes([bytes[pos + 1], bytes[pos + 2]]) as usize;
        let mut entries = Vec::new();
        for i in 0..count {
            let at = pos + 3 + 24 * i;
            let mut key = [0u8; 16];
            key.copy_from_slice(&bytes[at..at + 16]);
            let mut value = [0u8; 8];
            value.copy_from_slice(&bytes[at + 16..at + 24]);
            entries.push((u128::from_be_bytes(key), u64::from_be_bytes(value)));
        }
        result.push((pos as u64, kind, entries));
        pos += 3 + 24 * count;
    }
    result
}

/// The search that a reader makes: from the root down, in a branch to the
/// last entry whose key is not above the target, in a leaf by exact key.
fn search(bytes: &[u8], root: u64, key: u128) -> Option<u64> {
    let all = nodes(bytes);
    let mut at = root;
    loop {
        let (_, kind, entries) = all.iter().find(|n| n.0 == at).unwrap();
        if *kind == 0 {
            return entries.iter().find(|e| e.0 == key).map(|e| e.1);
        }
        at = entries.iter().rev().find(|e| e.0 <= key)?.1;
    }
}

#[test]
fn arity_outside_the_range_is_refused() {
    assert_eq!(Creator::new(0, Vec::new()).err(), Some(CassError::InvalidArity));
    assert_eq!(Creator::new(1, Vec::new()).err(), Some(CassError::InvalidArity));
    assert_eq!(Creator::new(65536, Vec::new()).err(), Some(CassError::InvalidArity));
    assert!(Creator::new(2, Vec::new()).is_ok());
    assert!(Creator::new(65535, Vec::new()).is_ok());
}

#[test]
fn empty_index_has_no_root_and_no_nodes() {
    for arity in [2, 3, 100] {
        assert_eq!(built(arity, 0), (None, Vec::new()));
    }
    let creator = Creator::new(2, vec![1, 2, 3]).unwrap();
    assert_eq!(creator.finalize(), Ok((None, vec![1, 2, 3])));
}

#[test]
fn singleton_index_is_one_leaf() {
    for arity in [2, 3, 100, 65535] {
        assert_eq!(built(arity, 1), (Some(0), node(0, &[(10, 100)])));
    }
    let mut creator = Creator::new(2, vec![7, 7]).unwrap();
    creator.add_entry(5, 6).unwrap();
    let mut expected = vec![7, 7];
    expected.extend_from_slice(&node(0, &[(5, 6)]));
    assert_eq!(creator.finalize(), Ok((Some(2), expected)));
}

#[test]
fn full_leaf_is_written_at_once() {
    let mut creator = Creator::new(3, Vec::new()).unwrap();
    creator.add_entry(10, 100).unwrap();
    creator.add_entry(20, 200).unwrap();
    assert_eq!(creator.out.position(), Ok(0));
    assert_eq!(creator.cur_leaf.len(), 2);
    creator.add_entry(30, 300).unwrap();
    assert_eq!(creator.cur_leaf.len(), 0);
    assert_eq!(creator.out.position(), Ok(3 + 3 * 24));
    assert_eq!(creator.branch_stack.len(), 1);
    assert_eq!(creator.branch_stack[0].level, 1);
    assert_eq!(creator.branch_stack[0].kvs, vec![(10, 0)]);
    let (root, bytes) = creator.finalize().unwrap();
    let mut expected = node(0, &[(10, 100), (20, 200), (30, 300)]);
    expected.extend_from_slice(&node(1, &[(10, 0)]));
    assert_eq!(bytes, expected);
    assert_eq!(root, Some(75));
}

#[test]
fn five_entries_with_arity_two() {
    let mut creator = Creator::new(2, Vec::new()).unwrap();
    creator.add_entry(10, 100).unwrap();
    assert_eq!(creator.out.position(), Ok(0));
    creator.add_entry(20, 200).unwrap();
    assert_eq!(creator.out.position(), Ok(51));
    creator.add_entry(30, 300).unwrap();
    assert_eq!(creator.out.position(), Ok(51));
    creator.add_entry(40, 400).unwrap();
    assert_eq!(creator.out.position(), Ok(102));
    assert_eq!(creator.branch_stack.len(), 1);
    assert_eq!(creator.branch_stack[0].kvs, vec![(10, 0), (30, 51)]);
    creator.add_entry(50, 500).unwrap();
    assert_eq!(creator.out.position(), Ok(102));
    let (root, bytes) = creator.finalize().unwrap();

    let mut expected = node(0, &[(10, 100), (20, 200)]);
    expected.extend_from_slice(&node(0, &[(30, 300), (40, 400)]));
    expected.extend_from_slice(&node(0, &[(50, 500)]));
    expected.extend_from_slice(&node(1, &[(10, 0), (30, 51)]));
    expected.extend_from_slice(&node(1, &[(10, 129), (50, 102)]));
    assert_eq!(bytes, expected);
    assert_eq!(root, Some(180));
    for i in 1..=5u64 {
        assert_eq!(search(&bytes, 180, u128::from(i) * 10), Some(i * 100));
    }
    assert_eq!(search(&bytes, 180, 35), None);
    assert_eq!(search(&bytes, 180, 5), None);
}

#[test]
fn full_branch_is_written_when_the_next_entry_arrives() {
    let mut creator = Creator::new(2, Vec::new()).unwrap();
    for i in 1..=6u64 {
        creator.add_entry(u128::from(i) * 10, i * 100).unwrap();
    }
    assert_eq!(creator.out.position(), Ok(4 * 51));
    assert_eq!(creator.branch_stack.len(), 2);
    assert_eq!(creator.branch_stack[0].level, 2);
    assert_eq!(creator.branch_stack[0].kvs, vec![(10, 153)]);
    assert_eq!(creator.branch_stack[1].level, 1);
    assert_eq!(creator.branch_stack[1].kvs, vec![(50, 102)]);
}

#[test]
fn every_entry_is_found_from_the_root() {
    for arity in [2usize, 3, 4, 7] {
        for count in [1u64, 2, 3, 4, 5, 6, 7, 8, 9, 12, 13, 27, 50] {
            let (root, bytes) = built(arity, count);
            let root = root.unwrap();
            let all = nodes(&bytes);
            let leaves: Vec<(u128, u64)> =
                all.iter().filter(|n| n.1 == 0).flat_map(|n| n.2.clone()).collect();
            let inserted: Vec<(u128, u64)> =
                (1..=count).map(|i| (u128::from(i) * 10, i * 100)).collect();
            assert_eq!(leaves, inserted);
            for n in &all {
                assert!(!n.2.is_empty());
                if n.0 != root {
                    assert!(n.2.len() <= arity);
                }
            }
            for i in 1..=count {
                assert_eq!(search(&bytes, root, u128::from(i) * 10), Some(i * 100));
                assert_eq!(search(&bytes, root, u128::from(i) * 10 + 1), None);
            }
        }
    }
}

#[test]
fn builds_do_not_share_state() {
    let mut first = Creator::new(2, Vec::new()).unwrap();
    let mut second = Creator::new(2, Vec::new()).unwrap();
    first.add_entry(10, 100).unwrap();
    second.add_entry(1, 1).unwrap();
    first.add_entry(20, 200).unwrap();
    second.add_entry(2, 2).unwrap();
    first.add_entry(30, 300).unwrap();
    assert_eq!(second.finalize(), built_from(&[(1, 1), (2, 2)]));
    assert_eq!(first.finalize(), built_from(&[(10, 100), (20, 200), (30, 300)]));
}

fn built_from(entries: &[(u128, u64)]) -> Result<(Option<u64>, Vec<u8>), CassError> {
    let mut creator = Creator::new(2, Vec::new()).unwrap();
    for (key, value) in entries {
        creator.add_entry(*key, *value).unwrap();
    }
    creator.finalize()
}

#[test]
fn root_takes_every_child_that_is_left_over() {
    let (root, bytes) = built(2, 13);
    let all = nodes(&bytes);
    let root_node = all.iter().find(|n| Some(n.0) == root).unwrap();
    assert_eq!(root_node.1, 1);
    assert_eq!(root_node.2.iter().map(|e| e.0).collect::<Vec<u128>>(), vec![10, 90, 130]);
    for n in all.iter().filter(|n| Some(n.0) != root) {
        assert!(n.2.len() <= 2);
    }
}

#[test]
fn equal_tokens_are_kept_but_one_is_found() {
    let (root, bytes) = built_from(&[(10, 100), (20, 200), (20, 300), (30, 400)]).unwrap();
    let all = nodes(&bytes);
    let leaves: Vec<(u128, u64)> =
        all.iter().filter(|n| n.1 == 0).flat_map(|n| n.2.clone()).collect();
    assert_eq!(leaves, vec![(10, 100), (20, 200), (20, 300), (30, 400)]);
    assert_eq!(search(&bytes, root.unwrap(), 20), Some(300));
    assert_eq!(search(&bytes, root.unwrap(), 10), Some(100));
    assert_eq!(search(&bytes, root.unwrap(), 30), Some(400));
}

/// The search of a reader that minds equal tokens: in a branch it goes on at
/// every child whose key is not above the target and whose next sibling's
/// key is not below it; in a leaf it takes every entry with the target key.
fn search_all(bytes: &[u8], root: u64, key: u128) -> Vec<u64> {
    let all = nodes(bytes);
    let mut found = Vec::new();
    let mut open = vec![root];
    while let Some(at) = open.pop() {
        let (_, kind, entries) = all.iter().find(|n| n.0 == at).unwrap();
        if *kind == 0 {
            found.extend(entries.iter().filter(|e| e.0 == key).map(|e| e.1));
        } else {
            for (c, entry) in entries.iter().enumerate() {
                let next_allows = c + 1 >= entries.len() || key <= entries[c + 1].0;
                if entry.0 <= key && next_allows {
                    assert!(entry.1 < at);
                    open.push(entry.1);
                }
            }
        }
    }
    found.sort();
    found
}

#[test]
fn every_entry_is_reached_among_equal_tokens() {
    for arity in [2usize, 3, 4, 7] {
        for count in [1u64, 2, 3, 4, 5, 6, 7, 8, 9, 12, 13, 27, 50] {
            for run in [1u64, 2, 3, 5] {
                let entries: Vec<(u128, u64)> =
                    (0..count).map(|i| (u128::from(i / run) * 10, i + 1)).collect();
                let (root, bytes) = built_from_with(arity, &entries).unwrap();
                let root = root.unwrap();
                for (key, value) in &entries {
                    assert!(search_all(&bytes, root, *key).contains(value));
                }
                let last = entries.last().unwrap().0;
                assert_eq!(search_all(&bytes, root, last + 1), Vec::<u64>::new());
                let expected: Vec<u64> =
                    entries.iter().filter(|e| e.0 == 0).map(|e| e.1).collect();
                assert_eq!(search_all(&bytes, root, 0), expected);
            }
        }
    }
}

fn built_from_with(
    arity: usize,
    entries: &[(u128, u64)],
) -> Result<(Option<u64>, Vec<u8>), CassError> {
    let mut creator = Creator::new(arity, Vec::new()).unwrap();
    for (key, value) in entries {
        creator.add_entry(*key, *value).unwrap();
    }
    creator.finalize()
}
