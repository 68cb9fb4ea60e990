use revy::builder::DirEntry;
use revy::ignore::{parse_excluded_paths, should_ignore};
use revy::object::{Metadata, Object, ObjectType};
use revy::store::{repository_path, resolve};
use revy::tree::FileMode;

const HASH_HI: &str = "c22b5f9178342609428d6f51b2c5af4c0bde6a42";
const HASH_YO: &str = "c41975d1dae1cc69b16ad8892b8c77164e84ca39";
const HASH_INNER: &str = "76a132accf59408f086c202ec9022a46ae9125fc";
const HASH_OUTER: &str = "da905e37949cafad0684d1ccd11389e089dbf638";

fn sample_dir() -> Vec<DirEntry> {
    vec![
        DirEntry::File { name: "a.txt".to_string(), content: b"hi".to_vec() },
        DirEntry::Directory {
            name: "sub".to_string(),
            entries: vec![DirEntry::File { name: "b.txt".to_string(), content: b"yo".to_vec() }],
        },
    ]
}

fn entries_of(o: &Object) -> Vec<(FileMode, String, String)> {
    match &o.metadata {
        Metadata::Tree(t) => t.data.iter().map(|n| (n.mode, n.name.clone(), n.hash.clone())).collect(),
        Metadata::Blob(_) => panic!("expected a tree"),
    }
}

#[test]
fn build_tree_end_to_end() {
    let mut written = Vec::new();
    let root = Object::create_tree(".", &sample_dir(), &Vec::new(), &mut written);
    assert_eq!(root.kind, ObjectType::Tree);
    assert_eq!(root.hash, HASH_OUTER);
    assert_eq!(
        entries_of(&root),
        vec![
            (FileMode::RegularFile, "a.txt".to_string(), HASH_HI.to_string()),
            (FileMode::Directory, "sub".to_string(), HASH_INNER.to_string()),
        ]
    );
    let hashes: Vec<String> = written.iter().map(|o| o.hash.clone()).collect();
    assert_eq!(hashes, vec![HASH_HI.to_string(), HASH_YO.to_string(), HASH_INNER.to_string()]);
    assert_eq!(
        entries_of(&written[2]),
        vec![(FileMode::RegularFile, "b.txt".to_string(), HASH_YO.to_string())]
    );
    let stored = root.stored_bytes().unwrap();
    let back = Object::load_object_from_hash(&root.hash, &stored).unwrap();
    assert_eq!(entries_of(&back), entries_of(&root));
}

#[test]
fn build_skips_excluded_entries() {
    let patterns = vec!["sub/".to_string()];
    let mut written = Vec::new();
    let root = Object::create_tree(".", &sample_dir(), &patterns, &mut written);
    assert_eq!(
        entries_of(&root),
        vec![(FileMode::RegularFile, "a.txt".to_string(), HASH_HI.to_string())]
    );
    assert_eq!(written.len(), 1);
}

#[test]
fn build_empty_directory() {
    let mut written = Vec::new();
    let root = Object::create_tree(".", &Vec::new(), &Vec::new(), &mut written);
    assert!(written.is_empty());
    assert_eq!(root.size, 0);
    assert_eq!(root.hash, "da39a3ee5e6b4b0d3255bfef95601890afd80709");
}

#[test]
fn create_blob_hashes_contents() {
    let o = Object::create_blob(b"yo".to_vec());
    assert_eq!(o.hash, HASH_YO);
    assert_eq!(o.size, 2);
}

#[test]
fn directory_pattern_excludes_nested_path() {
    assert!(should_ignore("project/build/out.o", &["build/".to_string()]));
    assert!(!should_ignore("project/src/main.rs", &["build/".to_string()]));
}

#[test]
fn glob_pattern_excludes_matching_path() {
    assert!(should_ignore("out.o", &["*.o".to_string()]));
    assert!(should_ignore("./dir/x.o", &["*.o".to_string()]));
    assert!(!should_ignore("out.c", &["*.o".to_string()]));
}

#[test]
fn invalid_glob_still_checks_containment() {
    assert!(should_ignore("a[b", &["[".to_string()]));
    assert!(!should_ignore("abc", &["[".to_string()]));
}

#[test]
fn no_patterns_excludes_nothing() {
    assert!(!should_ignore("anything", &[]));
}

#[test]
fn ignore_file_skips_comments_and_blank_lines() {
    let text = "#comment\n\n   \nbuild/\n  target  \n# another\nnode_modules # deps\n";
    assert_eq!(
        parse_excluded_paths(text),
        vec!["build/".to_string(), "target".to_string(), "node_modules ".to_string()]
    );
}

#[test]
fn ignore_file_without_final_newline_and_crlf() {
    assert_eq!(parse_excluded_paths("a\r\nb"), vec!["a".to_string(), "b".to_string()]);
    assert!(parse_excluded_paths("").is_empty());
}

#[test]
fn resolve_uses_two_level_fan_out() {
    assert_eq!(
        resolve("/repo/.revy", HASH_HI),
        "/repo/.revy/objects/c2/2b5f9178342609428d6f51b2c5af4c0bde6a42"
    );
    assert_eq!(resolve("r", "a"), "r/objects/a/");
}

#[test]
fn repository_paths() {
    assert_eq!(repository_path("/home/u", None), "/home/u/.revy");
    assert_eq!(repository_path("/home/u", Some("proj")), "/home/u/proj/.revy");
}

#[test]
fn built_objects_store_as_expected() {
    let mut written = Vec::new();
    let root = Object::create_tree(".", &sample_dir(), &Vec::new(), &mut written);
    let mut plain = Vec::new();
    std::io::Read::read_to_end(
        &mut flate2::read::ZlibDecoder::new(&written[0].stored_bytes().unwrap()[..]),
        &mut plain,
    )
    .unwrap();
    assert_eq!(plain, b"blob 2\0hi".to_vec());
    assert_eq!(resolve(".revy", &written[1].hash), format!(".revy/objects/c4/{}", &HASH_YO[2..]));
    assert_eq!(root.envelope().unwrap()[..8].to_vec(), b"tree 64\0".to_vec());
}
