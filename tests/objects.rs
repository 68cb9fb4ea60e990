use std::io::Write;

use revy::blob::Blob;
use revy::error::ObjectError;
use revy::object::{generate_sha1, hash_body, Metadata, Object, ObjectType};
use revy::tree::{FileMode, Node, Tree};

const HASH_HI: &str = "c22b5f9178342609428d6f51b2c5af4c0bde6a42";
const HASH_YO: &str = "c41975d1dae1cc69b16ad8892b8c77164e84ca39";

fn zlib(data: &[u8]) -> Vec<u8> {
    let mut e = flate2::write::ZlibEncoder::new(Vec::new(), flate2::Compression::default());
    e.write_all(data).unwrap();
    e.finish().unwrap()
}

fn inflate(data: &[u8]) -> Vec<u8> {
    let mut out = Vec::new();
    std::io::Read::read_to_end(&mut flate2::read::ZlibDecoder::new(data), &mut out).unwrap();
    out
}

fn blob_object(data: &[u8]) -> Object {
    Object::new(ObjectType::Blob, Metadata::Blob(Blob::new(data.to_vec()))).unwrap()
}

#[test]
fn blob_hash_is_sha1_of_body_alone() {
    let o = blob_object(b"hi");
    assert_eq!(o.hash, HASH_HI);
    assert_eq!(o.size, 2);
    assert_eq!(o.kind, ObjectType::Blob);
    assert_eq!(blob_object(b"").hash, "da39a3ee5e6b4b0d3255bfef95601890afd80709");
}

#[test]
fn equal_contents_give_equal_hashes() {
    assert_eq!(blob_object(b"yo").hash, blob_object(b"yo").hash);
    let t1 = Tree::new(vec![Node::new(FileMode::RegularFile, "a".to_string(), HASH_HI.to_string())]);
    let t2 = Tree::new(vec![Node::new(FileMode::RegularFile, "a".to_string(), HASH_HI.to_string())]);
    let o1 = Object::new(ObjectType::Tree, Metadata::Tree(t1)).unwrap();
    let o2 = Object::new(ObjectType::Tree, Metadata::Tree(t2)).unwrap();
    assert_eq!(o1.hash, o2.hash);
}

#[test]
fn changing_one_byte_changes_the_hash() {
    assert_ne!(blob_object(b"hi").hash, blob_object(b"hj").hash);
    assert_eq!(blob_object(b"hj").hash, "623b04843afe5638c5ccdd0ac3350b3c653e9b83");
}

#[test]
fn tree_hash_is_sha1_of_raw_body() {
    let t = Tree::new(vec![Node::new(FileMode::RegularFile, "b.txt".to_string(), HASH_YO.to_string())]);
    let o = Object::new(ObjectType::Tree, Metadata::Tree(t)).unwrap();
    assert_eq!(o.hash, "76a132accf59408f086c202ec9022a46ae9125fc");
    assert_eq!(o.size, 33);
}

#[test]
fn tree_entry_order_matters() {
    let a = Node::new(FileMode::RegularFile, "a".to_string(), HASH_HI.to_string());
    let b = Node::new(FileMode::RegularFile, "b".to_string(), HASH_YO.to_string());
    let a2 = Node::new(FileMode::RegularFile, "a".to_string(), HASH_HI.to_string());
    let b2 = Node::new(FileMode::RegularFile, "b".to_string(), HASH_YO.to_string());
    let o1 = Object::new(ObjectType::Tree, Metadata::Tree(Tree::new(vec![a, b]))).unwrap();
    let o2 = Object::new(ObjectType::Tree, Metadata::Tree(Tree::new(vec![b2, a2]))).unwrap();
    assert_ne!(o1.hash, o2.hash);
}

#[test]
fn new_rejects_kind_mismatch_and_bad_hash() {
    let r = Object::new(ObjectType::Tree, Metadata::Blob(Blob::new(b"x".to_vec())));
    assert_eq!(r.map(|_| ()), Err(ObjectError::KindMismatch));
    let t = Tree::new(vec![Node::new(FileMode::RegularFile, "a".to_string(), "123".to_string())]);
    let r = Object::new(ObjectType::Tree, Metadata::Tree(t));
    assert_eq!(r.map(|_| ()), Err(ObjectError::InvalidHash));
}

#[test]
fn hash_helpers_match_sha1() {
    assert_eq!(generate_sha1("hello world"), "2aae6c35c94fcfb415dbe95f408b9ce91ee846ed");
    assert_eq!(hash_body(b"yo"), HASH_YO);
}

#[test]
fn envelope_has_header_then_body() {
    let o = blob_object(b"hello world");
    assert_eq!(o.envelope().unwrap(), b"blob 11\0hello world".to_vec());
    let stored = o.stored_bytes().unwrap();
    assert_ne!(stored, b"blob 11\0hello world".to_vec());
    assert_eq!(inflate(&stored), b"blob 11\0hello world".to_vec());
}

#[test]
fn stored_blob_loads_back() {
    let o = blob_object(b"hi");
    let stored = o.stored_bytes().unwrap();
    let back = Object::load_object_from_hash(&o.hash, &stored).unwrap();
    assert_eq!(back.kind, ObjectType::Blob);
    assert_eq!(back.hash, HASH_HI);
    assert_eq!(back.size, 2);
    match back.metadata {
        Metadata::Blob(b) => assert_eq!(b.data, b"hi".to_vec()),
        Metadata::Tree(_) => panic!("expected a blob"),
    }
}

#[test]
fn loaded_hash_is_the_lookup_hash() {
    let stored = zlib(b"blob 2\0hi");
    let back = Object::load_object_from_hash("0000000000000000000000000000000000000000", &stored).unwrap();
    assert_eq!(back.hash, "0000000000000000000000000000000000000000");
}

#[test]
fn load_header_without_nul_is_malformed() {
    let stored = zlib(b"blob 2");
    let r = Object::load_object_from_hash(HASH_HI, &stored);
    assert_eq!(r.map(|_| ()), Err(ObjectError::MalformedHeader));
}

#[test]
fn load_header_with_bad_size_is_malformed() {
    let r = Object::load_object_from_hash(HASH_HI, &zlib(b"blob two\0hi"));
    assert_eq!(r.map(|_| ()), Err(ObjectError::MalformedHeader));
    let r = Object::load_object_from_hash(HASH_HI, &zlib(b"blob -2\0hi"));
    assert_eq!(r.map(|_| ()), Err(ObjectError::MalformedHeader));
}

#[test]
fn load_header_with_wrong_token_count_is_malformed() {
    let r = Object::load_object_from_hash(HASH_HI, &zlib(b"blob\0hi"));
    assert_eq!(r.map(|_| ()), Err(ObjectError::MalformedHeader));
    let r = Object::load_object_from_hash(HASH_HI, &zlib(b"blob 2 x\0hi"));
    assert_eq!(r.map(|_| ()), Err(ObjectError::MalformedHeader));
}

#[test]
fn load_unknown_kind() {
    let r = Object::load_object_from_hash(HASH_HI, &zlib(b"commit 2\0hi"));
    assert_eq!(r.map(|_| ()), Err(ObjectError::UnknownObjectKind));
}

#[test]
fn load_corrupt_stream_is_io_error() {
    let r = Object::load_object_from_hash(HASH_HI, b"not zlib at all");
    assert_eq!(r.map(|_| ()), Err(ObjectError::Io));
}

#[test]
fn load_tree_with_bad_body() {
    let r = Object::load_object_from_hash(HASH_HI, &zlib(b"tree 3\0abc"));
    assert_eq!(r.map(|_| ()), Err(ObjectError::MalformedTree));
}

#[test]
fn object_type_tags() {
    assert_eq!(ObjectType::Tree.as_str(), "tree");
    assert_eq!(ObjectType::Blob.as_str(), "blob");
    assert_eq!(ObjectType::from_str("tree"), Some(ObjectType::Tree));
    assert_eq!(ObjectType::from_str("blob"), Some(ObjectType::Blob));
    assert_eq!(ObjectType::from_str("commit"), None);
    assert_eq!(ObjectType::from_str("Tree"), None);
}

#[test]
fn printing_objects() {
    let o = blob_object(b"hi");
    assert_eq!(o.print_object(), Ok("hi\n".to_string()));
    assert_eq!(o.metadata_as_str(), Ok("hi".to_string()));
    assert_eq!(blob_object(&[0xff]).print_object(), Err(ObjectError::Decode));
    let t = Tree::new(vec![
        Node::new(FileMode::RegularFile, "a.txt".to_string(), HASH_HI.to_string()),
        Node::new(FileMode::Directory, "sub".to_string(), HASH_YO.to_string()),
    ]);
    let o = Object::new(ObjectType::Tree, Metadata::Tree(t)).unwrap();
    assert_eq!(o.print_object(), Ok("a.txt\nsub\n".to_string()));
    assert_eq!(o.metadata_as_bytes().unwrap().len(), 13 + 20 + 11 + 20);
}

#[test]
fn blob_of_tree_bytes_has_tree_hash() {
    let t = Tree::new(vec![Node::new(FileMode::RegularFile, "b.txt".to_string(), HASH_YO.to_string())]);
    let body = t.as_bytes().unwrap();
    let tree = Object::new(ObjectType::Tree, Metadata::Tree(t)).unwrap();
    let blob = blob_object(&body);
    assert_eq!(blob.hash, tree.hash);
}

#[test]
fn header_size_may_carry_a_plus_sign() {
    let back = Object::load_object_from_hash(HASH_HI, &zlib(b"blob +2\0hi")).unwrap();
    assert_eq!(back.size, 2);
    let r = Object::load_object_from_hash(HASH_HI, &zlib(b"blob +\0hi"));
    assert_eq!(r.map(|_| ()), Err(ObjectError::MalformedHeader));
}
