use objstore::codec::{hash_file, ObjectError};
use objstore::hash::ObjectHash;
use objstore::kind::ObjType;
use objstore::store::tree_entries;
use objstore::codec::{encode_object, object_decoder};
use objstore::tree::{encode_tree, hash_tree, parse_tree, TreeEntry, TreeObjMode};
use objstore::walk::{build_tree, entry_mode, is_control_name, name_less};

fn entry(mode: TreeObjMode, name: &str, hash: ObjectHash) -> TreeEntry {
    TreeEntry { mode, name: name.as_bytes().to_vec(), hash }
}

fn names(es: &[TreeEntry]) -> Vec<String> {
    es.iter().map(|e| String::from_utf8(e.name.clone()).unwrap()).collect()
}

#[test]
fn empty_directory_tree() {
    let tree = build_tree(vec![]);
    assert!(tree.is_empty());
    let (h, body) = hash_tree(&tree);
    assert_eq!(body.len(), 0);
    assert_eq!(h.to_hex(), "4b825dc642cb6eb9a060e54bf8d69288fbee4904");
}

#[test]
fn one_file_tree() {
    let blob = hash_file(b"hi\n");
    let tree = build_tree(vec![entry(TreeObjMode::RegularFile, "a.txt", blob)]);
    assert_eq!(tree.len(), 1);
    assert_eq!(tree[0].mode, TreeObjMode::RegularFile);
    assert_eq!(tree[0].name, b"a.txt".to_vec());
    assert_eq!(tree[0].hash, blob);
    let (_, body) = hash_tree(&tree);
    let mut expected = b"100644 a.txt\0".to_vec();
    expected.extend_from_slice(&blob.bytes);
    assert_eq!(body, expected);
}

#[test]
fn parse_keeps_encoded_order() {
    let f = hash_file(b"file");
    let d = hash_file(b"dir");
    let mut body = b"100644 bar\0".to_vec();
    body.extend_from_slice(&f.bytes);
    body.extend_from_slice(b"40000 foo\0");
    body.extend_from_slice(&d.bytes);
    let es = parse_tree(&body).unwrap();
    assert_eq!(names(&es), vec!["bar", "foo"]);
    assert_eq!(es[0].mode, TreeObjMode::RegularFile);
    assert_eq!(es[0].hash, f);
    assert_eq!(es[1].mode, TreeObjMode::Directory);
    assert_eq!(es[1].hash, d);
}

#[test]
fn parse_errors() {
    let h = hash_file(b"x");
    assert_eq!(parse_tree(b"").unwrap().len(), 0);
    let mut bad_mode = b"100600 a\0".to_vec();
    bad_mode.extend_from_slice(&h.bytes);
    assert_eq!(parse_tree(&bad_mode).unwrap_err(), ObjectError::Corrupt);
    assert_eq!(parse_tree(b"100644").unwrap_err(), ObjectError::Corrupt);
    assert_eq!(parse_tree(b"100644 a").unwrap_err(), ObjectError::Corrupt);
    let mut short_hash = b"100644 a\0".to_vec();
    short_hash.extend_from_slice(&h.bytes[..19]);
    assert_eq!(parse_tree(&short_hash).unwrap_err(), ObjectError::Corrupt);
}

#[test]
fn tree_round_trip_all_modes() {
    let h = hash_file(b"x");
    let tree = vec![
        entry(TreeObjMode::Directory, "d", h),
        entry(TreeObjMode::RegularFile, "f with space", h),
        entry(TreeObjMode::ExecutableFile, "run", h),
        entry(TreeObjMode::Link, "sym", h),
    ];
    let body = encode_tree(&tree);
    let back = parse_tree(&body).unwrap();
    assert_eq!(names(&back), names(&tree));
    for (a, b) in back.iter().zip(tree.iter()) {
        assert_eq!(a.mode, b.mode);
        assert_eq!(a.hash, b.hash);
    }
    let z = encode_object(ObjType::Tree, &body);
    let obj = object_decoder(&z).unwrap();
    assert_eq!(tree_entries(&obj).unwrap().len(), 4);
}

#[test]
fn build_sorts_by_bytes_and_skips_control_dir() {
    let h = hash_file(b"x");
    let tree = build_tree(vec![
        entry(TreeObjMode::RegularFile, "b", h),
        entry(TreeObjMode::Directory, ".git", h),
        entry(TreeObjMode::RegularFile, "lib.rs", h),
        entry(TreeObjMode::Directory, "lib", h),
        entry(TreeObjMode::RegularFile, "B", h),
        entry(TreeObjMode::RegularFile, "a", h),
    ]);
    assert_eq!(names(&tree), vec!["B", "a", "b", "lib", "lib.rs"]);
    assert_eq!(tree[3].mode, TreeObjMode::Directory);
}

#[test]
fn listing_order_does_not_change_hash() {
    let h1 = hash_file(b"one");
    let h2 = hash_file(b"two");
    let a = build_tree(vec![
        entry(TreeObjMode::RegularFile, "x", h1),
        entry(TreeObjMode::Directory, "y", h2),
        entry(TreeObjMode::ExecutableFile, "z", h1),
    ]);
    let b = build_tree(vec![
        entry(TreeObjMode::ExecutableFile, "z", h1),
        entry(TreeObjMode::RegularFile, "x", h1),
        entry(TreeObjMode::Directory, "y", h2),
    ]);
    assert_eq!(hash_tree(&a).0, hash_tree(&b).0);
}

#[test]
fn name_order() {
    assert!(name_less(b"lib", b"lib.rs"));
    assert!(!name_less(b"lib.rs", b"lib"));
    assert!(name_less(b"Z", b"a"));
    assert!(!name_less(b"a", b"a"));
    assert!(name_less(b"", b"a"));
}

#[test]
fn modes_and_lines() {
    assert_eq!(TreeObjMode::from(b"40000"), Some(TreeObjMode::Directory));
    assert_eq!(TreeObjMode::from(b"100755"), Some(TreeObjMode::ExecutableFile));
    assert_eq!(TreeObjMode::from(b"120000"), Some(TreeObjMode::Link));
    assert_eq!(TreeObjMode::from(b"040000"), None);
    assert_eq!(TreeObjMode::Directory.as_bytes(), b"40000".to_vec());
    assert_eq!(TreeObjMode::Directory.display_bytes(), b"040000".to_vec());
    assert_eq!(TreeObjMode::Link.object_type(), ObjType::Blob);
    let e = entry(TreeObjMode::Directory, "src", hash_file(b"what is up, doc?"));
    assert_eq!(
        e.to_line(),
        b"040000 tree bd9dbf5aae1a3862dd1526723246b20206e5fc37\tsrc".to_vec()
    );
}

#[test]
fn control_directory_name() {
    assert!(is_control_name(b".git"));
    assert!(!is_control_name(b".gitignore"));
    assert!(!is_control_name(b"git"));
}

#[test]
fn modes_from_file_type() {
    assert_eq!(entry_mode(true, false, 0o755), TreeObjMode::Link);
    assert_eq!(entry_mode(false, true, 0o755), TreeObjMode::Directory);
    assert_eq!(entry_mode(false, false, 0o100755), TreeObjMode::ExecutableFile);
    assert_eq!(entry_mode(false, false, 0o100744), TreeObjMode::ExecutableFile);
    assert_eq!(entry_mode(false, false, 0o100644), TreeObjMode::RegularFile);
}
