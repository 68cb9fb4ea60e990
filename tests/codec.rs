use revy::blob::Blob;
use revy::error::ObjectError;
use revy::tree::{FileMode, Node, Tree};

const HASH_HI: &str = "c22b5f9178342609428d6f51b2c5af4c0bde6a42";
const HASH_YO: &str = "c41975d1dae1cc69b16ad8892b8c77164e84ca39";

fn sample_tree() -> Tree {
    Tree::new(vec![
        Node::new(FileMode::RegularFile, "a.txt".to_string(), HASH_HI.to_string()),
        Node::new(FileMode::Directory, "sub".to_string(), HASH_YO.to_string()),
        Node::new(FileMode::ExecutableFile, "run.sh".to_string(), HASH_HI.to_string()),
        Node::new(FileMode::SymbolicLink, "link".to_string(), HASH_YO.to_string()),
    ])
}

fn names_modes_hashes(t: &Tree) -> Vec<(FileMode, String, String)> {
    t.data
        .iter()
        .map(|n| (n.mode, n.name.clone(), n.hash.clone()))
        .collect()
}

#[test]
fn blob_round_trip_keeps_every_byte() {
    let data: Vec<u8> = vec![0, 1, 2, 0xff, 0xfe, b'a', 0, 10, 13];
    let blob = Blob::new(data.clone());
    let body = blob.as_bytes();
    assert_eq!(body, data);
    let back = Blob::from_file(&body);
    assert_eq!(back.data, data);
}

#[test]
fn blob_round_trip_empty() {
    let blob = Blob::new(Vec::new());
    let back = Blob::from_file(&blob.as_bytes());
    assert!(back.data.is_empty());
}

#[test]
fn blob_as_str_of_text_and_of_binary() {
    assert_eq!(Blob::new(b"hi there".to_vec()).as_str(), Ok("hi there".to_string()));
    assert_eq!(Blob::new(vec![0xff, 0x00]).as_str(), Err(ObjectError::Decode));
}

#[test]
fn tree_encoding_layout() {
    let t = Tree::new(vec![Node::new(
        FileMode::RegularFile,
        "a.txt".to_string(),
        HASH_HI.to_string(),
    )]);
    let body = t.as_bytes().unwrap();
    let mut expected = b"100644 a.txt\0".to_vec();
    expected.extend(hex::decode(HASH_HI).unwrap());
    assert_eq!(body, expected);
    assert_eq!(body.len(), 13 + 20);
}

#[test]
fn tree_directory_mode_is_written_with_leading_zero() {
    let t = Tree::new(vec![Node::new(FileMode::Directory, "sub".to_string(), HASH_YO.to_string())]);
    let body = t.as_bytes().unwrap();
    assert_eq!(&body[..11], b"040000 sub\0");
}

#[test]
fn tree_round_trip_keeps_entries_and_order() {
    let t = sample_tree();
    let body = t.as_bytes().unwrap();
    let back = Tree::parse_tree(&body).unwrap();
    assert_eq!(names_modes_hashes(&back), names_modes_hashes(&t));
}

#[test]
fn tree_round_trip_empty() {
    let t = Tree::new(Vec::new());
    let body = t.as_bytes().unwrap();
    assert!(body.is_empty());
    assert!(Tree::parse_tree(&body).unwrap().data.is_empty());
}

#[test]
fn tree_with_bad_hash_does_not_encode() {
    let short = Tree::new(vec![Node::new(FileMode::RegularFile, "a".to_string(), "abcd".to_string())]);
    assert_eq!(short.as_bytes(), Err(ObjectError::InvalidHash));
    let not_hex = Tree::new(vec![Node::new(
        FileMode::RegularFile,
        "a".to_string(),
        "zz2b5f9178342609428d6f51b2c5af4c0bde6a42".to_string(),
    )]);
    assert_eq!(not_hex.as_bytes(), Err(ObjectError::InvalidHash));
}

#[test]
fn tree_parse_rejects_missing_nul() {
    assert_eq!(Tree::parse_tree(b"100644 a.txt").map(|_| ()), Err(ObjectError::MalformedTree));
}

#[test]
fn tree_parse_rejects_wrong_token_count() {
    let mut body = b"100644 a b\0".to_vec();
    body.extend([7u8; 20]);
    assert_eq!(Tree::parse_tree(&body).map(|_| ()), Err(ObjectError::MalformedTree));
    let mut one = b"100644\0".to_vec();
    one.extend([7u8; 20]);
    assert_eq!(Tree::parse_tree(&one).map(|_| ()), Err(ObjectError::MalformedTree));
}

#[test]
fn tree_parse_rejects_non_numeric_mode() {
    let mut body = b"10x644 a\0".to_vec();
    body.extend([7u8; 20]);
    assert_eq!(Tree::parse_tree(&body).map(|_| ()), Err(ObjectError::MalformedTree));
}

#[test]
fn tree_parse_rejects_unknown_mode() {
    let mut body = b"100600 a\0".to_vec();
    body.extend([7u8; 20]);
    assert_eq!(Tree::parse_tree(&body).map(|_| ()), Err(ObjectError::InvalidFileMode));
}

#[test]
fn tree_parse_rejects_short_hash() {
    let mut body = b"100644 a\0".to_vec();
    body.extend([7u8; 19]);
    assert_eq!(Tree::parse_tree(&body).map(|_| ()), Err(ObjectError::MalformedTree));
}

#[test]
fn tree_parse_reads_raw_hash_as_hex() {
    let mut body = b"40000 dir\0".to_vec();
    body.extend([0xabu8; 20]);
    let t = Tree::parse_tree(&body).unwrap();
    assert_eq!(t.data.len(), 1);
    assert_eq!(t.data[0].mode, FileMode::Directory);
    assert_eq!(t.data[0].name, "dir");
    assert_eq!(t.data[0].hash, "ab".repeat(20));
}

#[test]
fn file_mode_tables() {
    assert_eq!(FileMode::from_u32(100644), Some(FileMode::RegularFile));
    assert_eq!(FileMode::from_u32(100755), Some(FileMode::ExecutableFile));
    assert_eq!(FileMode::from_u32(120000), Some(FileMode::SymbolicLink));
    assert_eq!(FileMode::from_u32(40000), Some(FileMode::Directory));
    assert_eq!(FileMode::from_u32(644), None);
    assert_eq!(FileMode::RegularFile.as_str(), "blob");
    assert_eq!(FileMode::Directory.as_str(), "tree");
    assert_eq!(FileMode::ExecutableFile.as_str(), "commit");
    assert_eq!(FileMode::SymbolicLink.as_str(), "commit");
    assert_eq!(FileMode::Directory.as_u32_str(), "040000");
    assert_eq!(FileMode::ExecutableFile.as_u32_str(), "100755");
    assert_eq!(FileMode::SymbolicLink.code_bytes(), b"120000".to_vec());
}

#[test]
fn tree_text_forms() {
    let t = Tree::new(vec![
        Node::new(FileMode::RegularFile, "a.txt".to_string(), HASH_HI.to_string()),
        Node::new(FileMode::Directory, "sub".to_string(), HASH_YO.to_string()),
    ]);
    assert_eq!(
        t.as_str(),
        format!("100644 a.txt\0{}040000 sub\0{}", HASH_HI, HASH_YO)
    );
    assert_eq!(t.print_tree(), "a.txt\nsub\n");
    assert_eq!(
        t.print_pretty_tree(),
        format!("100644 blob {} a.txt\n040000 tree {} sub\n", HASH_HI, HASH_YO)
    );
}

#[test]
fn tree_mode_may_carry_a_plus_sign() {
    let mut body = b"+100644 a\0".to_vec();
    body.extend([7u8; 20]);
    let t = Tree::parse_tree(&body).unwrap();
    assert_eq!(t.data[0].mode, FileMode::RegularFile);
}
