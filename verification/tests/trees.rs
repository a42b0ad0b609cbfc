use objstore::digits::{parse_decimal, push_decimal};
use objstore::error::StoreError;
use objstore::hash::id_bytes;
use objstore::order::bytes_le;
use objstore::scan::{copy_range, scan_to};
use objstore::snapshot::{build_tree, excludes, file_mode_of, mode_digits, snapshot_tree, store_all};
use objstore::snapshot::{DirNode, NodeKind, DIRECTORY_FLAG, FILE_FLAG};
use objstore::store::{add_object, read_object, ObjectStore};
use objstore::tree::{ls_tree, parse_tree, serialize_tree, TreeEntry};

const HELLO_ID: &str = "ce013625030ba8dba906f756967f9e9ca394464a";
const HELLO_TREE_ID: &str = "aaa96ced2d9a1c8e72c56b253a0e2fe78393feb7";

fn file(name: &str, content: &[u8], permissions: u32) -> DirNode {
    DirNode {
        name: name.as_bytes().to_vec(),
        kind: NodeKind::File { content: content.to_vec(), permissions },
    }
}

fn dir(name: &str, children: Vec<DirNode>) -> DirNode {
    DirNode { name: name.as_bytes().to_vec(), kind: NodeKind::Directory { children } }
}

fn names(list: &[&str]) -> Vec<Vec<u8>> {
    list.iter().map(|n| n.as_bytes().to_vec()).collect()
}

fn hello_payload() -> Vec<u8> {
    let mut payload = b"100644 hello.txt\0".to_vec();
    payload.extend_from_slice(&id_bytes(HELLO_ID).unwrap());
    payload
}

#[test]
fn tree_of_one_file() {
    let mut store = ObjectStore::new();
    let listing = vec![file("hello.txt", b"hello\n", 0o644)];
    let id = build_tree(&mut store, &listing, &Vec::new()).unwrap();
    assert_eq!(id, HELLO_TREE_ID);
    let (kind, payload) = read_object(&store, &id).unwrap();
    assert_eq!(kind, "tree");
    assert_eq!(payload.len(), 37);
    assert_eq!(payload, hello_payload());
    assert_eq!(read_object(&store, HELLO_ID), Ok(("blob".to_string(), b"hello\n".to_vec())));
}

#[test]
fn tree_of_nothing() {
    let mut store = ObjectStore::new();
    let id = build_tree(&mut store, &Vec::new(), &Vec::new()).unwrap();
    assert_eq!(id, "4b825dc642cb6eb9a060e54bf8d69288fbee4904");
    assert_eq!(read_object(&store, &id), Ok(("tree".to_string(), Vec::new())));
    assert_eq!(ls_tree(&store, &id), Ok(Vec::new()));
}

#[test]
fn entries_stand_in_order_of_name() {
    let mut store = ObjectStore::new();
    let listing = vec![file("b", b"B", 0o644), file("a", b"A", 0o644), file("c", b"C", 0o644)];
    let id = build_tree(&mut store, &listing, &Vec::new()).unwrap();
    assert_eq!(id, "b3ab3b034685680d86a0957eb06afd12bf3faa05");
    assert_eq!(ls_tree(&store, &id), Ok(names(&["a", "b", "c"])));
}

#[test]
fn order_of_the_listing_does_not_matter() {
    let orders: Vec<Vec<&str>> = vec![
        vec!["a", "b", "c"],
        vec!["a", "c", "b"],
        vec!["b", "a", "c"],
        vec!["b", "c", "a"],
        vec!["c", "a", "b"],
        vec!["c", "b", "a"],
    ];
    for order in orders {
        let listing: Vec<DirNode> =
            order.iter().map(|n| file(n, n.to_uppercase().as_bytes(), 0o644)).collect();
        let mut store = ObjectStore::new();
        let id = build_tree(&mut store, &listing, &Vec::new()).unwrap();
        assert_eq!(id, "b3ab3b034685680d86a0957eb06afd12bf3faa05");
    }
}

#[test]
fn order_is_by_bytes() {
    let mut store = ObjectStore::new();
    let listing = vec![
        file("\u{e9}", b"", 0o644),
        file("b", b"", 0o644),
        file("ab", b"", 0o644),
        file("a", b"", 0o644),
        file("B", b"", 0o644),
        file("a.txt", b"", 0o644),
    ];
    let id = build_tree(&mut store, &listing, &Vec::new()).unwrap();
    assert_eq!(ls_tree(&store, &id), Ok(names(&["B", "a", "a.txt", "ab", "b", "\u{e9}"])));
}

#[test]
fn bytes_le_is_lexicographic() {
    assert!(bytes_le(&b"a".to_vec(), &b"a".to_vec()));
    assert!(bytes_le(&b"".to_vec(), &b"a".to_vec()));
    assert!(!bytes_le(&b"a".to_vec(), &b"".to_vec()));
    assert!(bytes_le(&b"a".to_vec(), &b"ab".to_vec()));
    assert!(!bytes_le(&b"ab".to_vec(), &b"a".to_vec()));
    assert!(bytes_le(&b"ab".to_vec(), &b"b".to_vec()));
    assert!(!bytes_le(&b"b".to_vec(), &b"ab".to_vec()));
    assert!(bytes_le(&b"Z".to_vec(), &b"a".to_vec()));
    assert!(bytes_le(&vec![0x7f], &vec![0x80]));
    assert!(!bytes_le(&vec![0xff], &vec![0x00, 0xff]));
}

#[test]
fn nested_directories() {
    let mut store = ObjectStore::new();
    let listing = vec![
        file("z", b"zz", 0o755),
        dir("sub", vec![file("hello.txt", b"hello\n", 0o644)]),
    ];
    let id = build_tree(&mut store, &listing, &Vec::new()).unwrap();
    assert_eq!(id, "0093638ae5449e9d49f4cf6cfbb081b2185374d2");
    let (_, payload) = read_object(&store, &id).unwrap();
    let entries = parse_tree(&payload).unwrap();
    assert_eq!(entries.len(), 2);
    assert_eq!(entries[0].mode, b"040000".to_vec());
    assert_eq!(entries[0].name, b"sub".to_vec());
    assert_eq!(entries[0].id, id_bytes(HELLO_TREE_ID).unwrap());
    assert_eq!(entries[1].mode, b"100755".to_vec());
    assert_eq!(entries[1].name, b"z".to_vec());
    assert_eq!(ls_tree(&store, HELLO_TREE_ID), Ok(names(&["hello.txt"])));
    assert_eq!(read_object(&store, HELLO_ID), Ok(("blob".to_string(), b"hello\n".to_vec())));
}

#[test]
fn excluded_names_are_passed_over() {
    let excluded = names(&[".git", "target"]);
    let listing = vec![
        dir(".git", vec![file("HEAD", b"ref: refs/heads/master\n", 0o644)]),
        file("hello.txt", b"hello\n", 0o644),
        dir("target", Vec::new()),
    ];
    let mut store = ObjectStore::new();
    let id = build_tree(&mut store, &listing, &excluded).unwrap();
    assert_eq!(id, HELLO_TREE_ID);
    assert_eq!(store.len(), 2);
    let mut all = ObjectStore::new();
    let other = build_tree(&mut all, &listing, &Vec::new()).unwrap();
    assert_ne!(other, id);
    assert_eq!(ls_tree(&all, &other), Ok(names(&[".git", "hello.txt", "target"])));
}

#[test]
fn exclusion_holds_at_every_depth() {
    let excluded = names(&["target"]);
    let listing = vec![dir(
        "sub",
        vec![file("hello.txt", b"hello\n", 0o644), file("target", b"x", 0o644)],
    )];
    let mut store = ObjectStore::new();
    let id = build_tree(&mut store, &listing, &excluded).unwrap();
    let (_, payload) = read_object(&store, &id).unwrap();
    let entries = parse_tree(&payload).unwrap();
    assert_eq!(entries.len(), 1);
    assert_eq!(entries[0].id, id_bytes(HELLO_TREE_ID).unwrap());
}

#[test]
fn excludes_matches_whole_names() {
    let excluded = names(&[".git", "target"]);
    assert!(excludes(&excluded, &b".git".to_vec()));
    assert!(excludes(&excluded, &b"target".to_vec()));
    assert!(!excludes(&excluded, &b".gitignore".to_vec()));
    assert!(!excludes(&excluded, &b"targe".to_vec()));
    assert!(!excludes(&Vec::new(), &b".git".to_vec()));
}

#[test]
fn other_kinds_are_passed_over() {
    let listing = vec![
        DirNode { name: b"link".to_vec(), kind: NodeKind::Other },
        file("hello.txt", b"hello\n", 0o644),
    ];
    let mut store = ObjectStore::new();
    let id = build_tree(&mut store, &listing, &Vec::new()).unwrap();
    assert_eq!(id, HELLO_TREE_ID);
}

#[test]
fn file_mode_keeps_the_low_nine_bits() {
    let listing = vec![
        file("a", b"", 0o100644),
        file("b", b"", 0o755),
        file("c", b"", 0),
        file("d", b"", 0o7777),
    ];
    let mut store = ObjectStore::new();
    let id = build_tree(&mut store, &listing, &Vec::new()).unwrap();
    let (_, payload) = read_object(&store, &id).unwrap();
    let entries = parse_tree(&payload).unwrap();
    let modes: Vec<Vec<u8>> = entries.into_iter().map(|e| e.mode).collect();
    assert_eq!(
        modes,
        vec![b"100644".to_vec(), b"100755".to_vec(), b"100000".to_vec(), b"100777".to_vec()]
    );
}

#[test]
fn mode_digits_are_six_octal_digits() {
    assert_eq!(mode_digits(DIRECTORY_FLAG), b"040000".to_vec());
    assert_eq!(mode_digits(FILE_FLAG | 0o644), b"100644".to_vec());
    assert_eq!(mode_digits(0), b"000000".to_vec());
    assert_eq!(mode_digits(u16::MAX), b"177777".to_vec());
    assert_eq!(mode_digits(0o12345), b"012345".to_vec());
}

#[test]
fn snapshot_lists_the_objects() {
    let listing = vec![dir("sub", vec![file("hello.txt", b"hello\n", 0o644)])];
    let mut objects = Vec::new();
    let id = snapshot_tree(&listing, &Vec::new(), &mut objects);
    assert_eq!(objects.len(), 3);
    assert_eq!(objects[0].0, HELLO_ID);
    assert_eq!(objects[0].1, b"blob 6\0hello\n".to_vec());
    assert_eq!(objects[1].0, HELLO_TREE_ID);
    assert_eq!(objects[2].0, id);
    assert_eq!(&objects[2].1[..8], b"tree 31\0");
    let mut store = ObjectStore::new();
    assert_eq!(store_all(&mut store, &objects), Ok(()));
    assert_eq!(ls_tree(&store, &id), Ok(names(&["sub"])));
    let mut direct = ObjectStore::new();
    assert_eq!(build_tree(&mut direct, &listing, &Vec::new()), Ok(id));
}

#[test]
fn parse_tree_reads_entries_in_order() {
    let mut payload = hello_payload();
    payload.extend_from_slice(b"040000 sub dir\0");
    payload.extend_from_slice(&[7u8; 20]);
    let entries = parse_tree(&payload).unwrap();
    assert_eq!(entries.len(), 2);
    assert_eq!(entries[0].mode, b"100644".to_vec());
    assert_eq!(entries[0].name, b"hello.txt".to_vec());
    assert_eq!(entries[0].id, id_bytes(HELLO_ID).unwrap());
    assert_eq!(entries[1].mode, b"040000".to_vec());
    assert_eq!(entries[1].name, b"sub dir".to_vec());
    assert_eq!(entries[1].id, vec![7u8; 20]);
    assert_eq!(serialize_tree(&entries), payload);
}

#[test]
fn parse_tree_hash_may_hold_any_byte() {
    let mut payload = b"100644 a\0".to_vec();
    payload.extend_from_slice(&[0u8; 10]);
    payload.extend_from_slice(&[0x20u8; 10]);
    payload.extend_from_slice(b"100644 b\0");
    payload.extend_from_slice(&[0xffu8; 20]);
    let entries = parse_tree(&payload).unwrap();
    assert_eq!(entries.len(), 2);
    assert_eq!(entries[1].name, b"b".to_vec());
}

#[test]
fn parse_tree_rejects_broken_payloads() {
    assert_eq!(parse_tree(&b"100644".to_vec()).err(), Some(StoreError::CorruptObject));
    assert_eq!(parse_tree(&b"100644 name".to_vec()).err(), Some(StoreError::CorruptObject));
    let mut short = b"100644 name\0".to_vec();
    short.extend_from_slice(&[1u8; 19]);
    assert_eq!(parse_tree(&short).err(), Some(StoreError::CorruptObject));
    let mut trailing = hello_payload();
    trailing.push(b'1');
    assert_eq!(parse_tree(&trailing).err(), Some(StoreError::CorruptObject));
    assert_eq!(parse_tree(&Vec::new()).unwrap().len(), 0);
}

#[test]
fn serialize_tree_writes_entries_as_given() {
    let entries = vec![TreeEntry {
        mode: b"100644".to_vec(),
        name: b"hello.txt".to_vec(),
        id: id_bytes(HELLO_ID).unwrap(),
    }];
    assert_eq!(serialize_tree(&entries), hello_payload());
    assert_eq!(serialize_tree(&Vec::new()), Vec::<u8>::new());
}

#[test]
fn ls_tree_fails_as_reading_does() {
    let mut store = ObjectStore::new();
    assert_eq!(ls_tree(&store, HELLO_TREE_ID), Err(StoreError::NotFound));
    let id = add_object(&mut store, "tree".to_string(), &b"100644 broken".to_vec()).unwrap();
    assert_eq!(ls_tree(&store, &id), Err(StoreError::CorruptObject));
}

#[test]
fn scan_to_finds_the_first_delimiter() {
    let data = b"ab cd\0ef gh".to_vec();
    assert_eq!(scan_to(&data, 0, b' '), 2);
    assert_eq!(scan_to(&data, 2, b' '), 2);
    assert_eq!(scan_to(&data, 3, b' '), 8);
    assert_eq!(scan_to(&data, 0, 0), 5);
    assert_eq!(scan_to(&data, 6, 0), data.len());
    assert_eq!(scan_to(&data, data.len(), 0), data.len());
    assert_eq!(copy_range(&data, 3, 5), b"cd".to_vec());
    assert_eq!(copy_range(&data, 4, 4), Vec::<u8>::new());
}

#[test]
fn decimal_digits_both_ways() {
    let mut buf = b"x".to_vec();
    push_decimal(&mut buf, 0);
    push_decimal(&mut buf, 7);
    push_decimal(&mut buf, 10);
    push_decimal(&mut buf, 12345);
    assert_eq!(buf, b"x071012345".to_vec());
    let mut max = Vec::new();
    push_decimal(&mut max, usize::MAX);
    assert_eq!(max, usize::MAX.to_string().into_bytes());
    assert_eq!(parse_decimal(&max), Some(usize::MAX));
    assert_eq!(parse_decimal(&b"0".to_vec()), Some(0));
    assert_eq!(parse_decimal(&b"007".to_vec()), Some(7));
    assert_eq!(parse_decimal(&b"12345".to_vec()), Some(12345));
    assert_eq!(parse_decimal(&Vec::new()), None);
    assert_eq!(parse_decimal(&b"12a".to_vec()), None);
    assert_eq!(parse_decimal(&b"+1".to_vec()), None);
    let mut over = max.clone();
    over.push(b'0');
    assert_eq!(parse_decimal(&over), None);
    assert_eq!(parse_decimal(&b"18446744073709551616".to_vec()), None);
}

#[test]
fn file_mode_of_sets_the_file_flag() {
    assert_eq!(file_mode_of(0o644), 0o100644);
    assert_eq!(file_mode_of(0o100755), 0o100755);
    assert_eq!(file_mode_of(0), 0o100000);
    assert_eq!(file_mode_of(u32::MAX), 0o100777);
    assert_eq!(file_mode_of(0o040755), 0o100755);
}
