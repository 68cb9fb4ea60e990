//! Building tree objects from a snapshot of a directory: every file becomes a
//! blob, every subdirectory a tree, and entries excluded by a pattern are left
//! out.
use vstd::prelude::*;

use crate::blob::Blob;
use crate::ignore::{excluded, should_ignore};
use crate::object::{
    hash_body, object_hash, Metadata, MetadataModel, Object, ObjectModel,
    ObjectType,
};
use crate::tree::{raw_hash, tree_bytes, FileMode, Node, NodeModel, Tree};

verus! {

/// One entry of a directory as it was read from disk: a file with its contents,
/// or a subdirectory with its own entries, in listing order.
#[derive(Debug)]
pub enum DirEntry {
    File { name: String, content: Vec<u8> },
    Directory { name: String, entries: Vec<DirEntry> },
}

pub open spec fn entry_name(e: DirEntry) -> Seq<char> {
    match e {
        DirEntry::File { name, .. } => name@,
        DirEntry::Directory { name, .. } => name@,
    }
}

/// The path of an entry named `name` inside the directory at `dir`.
pub open spec fn child_path(dir: Seq<char>, name: Seq<char>) -> Seq<char> {
    dir + seq!['/'] + name
}

/// The tree entries built from the first `n` entries of the directory at `dir`:
/// one for each entry that no pattern excludes, in listing order.
pub open spec fn built_nodes(dir: Seq<char>, es: Seq<DirEntry>, n: nat, pats: Seq<Seq<char>>) -> Seq<
    NodeModel,
>
    decreases es, n,
{
    if n == 0 || n > es.len() {
        Seq::empty()
    } else {
        let prev = built_nodes(dir, es, (n - 1) as nat, pats);
        let e = es[n - 1];
        if excluded(child_path(dir, entry_name(e)), pats) {
            prev
        } else {
            prev.push(built_node(dir, e, pats))
        }
    }
}

/// The tree entry built for `e` inside the directory at `dir`: a regular file
/// refers to the blob of its contents, a subdirectory to the tree built from it.
pub open spec fn built_node(dir: Seq<char>, e: DirEntry, pats: Seq<Seq<char>>) -> NodeModel
    decreases e, 0nat,
{
    match e {
        DirEntry::File { name, content } => NodeModel {
            mode: FileMode::RegularFile,
            name: name@,
            hash: object_hash(content@),
        },
        DirEntry::Directory { name, entries } => NodeModel {
            mode: FileMode::Directory,
            name: name@,
            hash: object_hash(
                tree_bytes(
                    built_nodes(child_path(dir, name@), entries@, entries@.len(), pats),
                )->Some_0,
            ),
        },
    }
}

/// The encoded body of the tree built from the directory at `dir`.
pub open spec fn built_body(dir: Seq<char>, es: Seq<DirEntry>, pats: Seq<Seq<char>>) -> Seq<u8> {
    tree_bytes(built_nodes(dir, es, es.len(), pats))->Some_0
}

/// The blob object made from a file's contents.
pub open spec fn blob_model(content: Seq<u8>) -> ObjectModel {
    ObjectModel {
        kind: ObjectType::Blob,
        hash: object_hash(content),
        size: content.len(),
        metadata: MetadataModel::Blob(content),
    }
}

/// The tree object built from the directory at `dir`.
pub open spec fn tree_model(dir: Seq<char>, es: Seq<DirEntry>, pats: Seq<Seq<char>>) -> ObjectModel {
    ObjectModel {
        kind: ObjectType::Tree,
        hash: object_hash(built_body(dir, es, pats)),
        size: built_body(dir, es, pats).len(),
        metadata: MetadataModel::Tree(built_nodes(dir, es, es.len(), pats)),
    }
}

/// The objects to store for the first `n` entries of the directory at `dir`:
/// for each entry that no pattern excludes, in listing order, the objects of
/// that entry.
pub open spec fn built_objects(dir: Seq<char>, es: Seq<DirEntry>, n: nat, pats: Seq<Seq<char>>) -> Seq<
    ObjectModel,
>
    decreases es, n,
{
    if n == 0 || n > es.len() {
        Seq::empty()
    } else {
        let prev = built_objects(dir, es, (n - 1) as nat, pats);
        let e = es[n - 1];
        if excluded(child_path(dir, entry_name(e)), pats) {
            prev
        } else {
            prev + entry_objects(dir, e, pats)
        }
    }
}

/// The objects to store for one entry: a file's blob; or, for a subdirectory,
/// the objects of its own entries followed by its tree.
pub open spec fn entry_objects(dir: Seq<char>, e: DirEntry, pats: Seq<Seq<char>>) -> Seq<ObjectModel>
    decreases e, 0nat,
{
    match e {
        DirEntry::File { content, .. } => seq![blob_model(content@)],
        DirEntry::Directory { name, entries } => built_objects(
            child_path(dir, name@),
            entries@,
            entries@.len(),
            pats,
        ).push(tree_model(child_path(dir, name@), entries@, pats)),
    }
}

/// The models of a list of objects.
pub open spec fn object_views(os: Seq<Object>) -> Seq<ObjectModel> {
    os.map_values(|o: Object| o@)
}

/// The path of the entry `name` inside `dir`.
fn child_path_of(dir: &str, name: &String) -> (r: String)
    ensures
        r@ == child_path(dir@, name@),
{
    let mut r = dir.to_owned();
    r.push('/');
    r.push_str(name.as_str());
    r
}

impl Object {
    /// Wraps the contents of a file into a blob object.
    pub fn create_blob(content: Vec<u8>) -> (r: Object)
        ensures
            r@ == blob_model(content@),
            raw_hash(r.hash@) is Some,
    {
        let hash = hash_body(content.as_slice());
        let size = content.len();
        Object { kind: ObjectType::Blob, hash, size, metadata: Metadata::Blob(Blob::new(content)) }
    }

    /// Builds the tree object of the directory at `dir`, whose entries are
    /// `entries`. Entries whose path `dir/name` is excluded by `patterns` are left
    /// out; each file becomes a blob and each subdirectory, recursively, a tree.
    /// The objects below the returned tree, every blob and subtree built for an
    /// entry that is not excluded, are appended to `written` in listing order,
    /// each subtree after the objects below it, for the caller to store.
    pub fn create_tree(
        dir: &str,
        entries: &Vec<DirEntry>,
        patterns: &Vec<String>,
        written: &mut Vec<Object>,
    ) -> (r: Object)
        ensures
            tree_bytes(built_nodes(dir@, entries@, entries@.len(), patterns@.map_values(|p: String| p@))) is Some,
            r@ == tree_model(dir@, entries@, patterns@.map_values(|p: String| p@)),
            raw_hash(r.hash@) is Some,
            object_views(final(written)@) == object_views(old(written)@) + built_objects(
                dir@,
                entries@,
                entries@.len(),
                patterns@.map_values(|p: String| p@),
            ),
        decreases entries,
    {
        let ghost pats = patterns@.map_values(|p: String| p@);
        let mut nodes: Vec<Node> = Vec::new();
        let mut i: usize = 0;
        while i < entries.len()
            invariant
                0 <= i <= entries@.len(),
                pats == patterns@.map_values(|p: String| p@),
                nodes@.map_values(|n: Node| n@) == built_nodes(dir@, entries@, i as nat, pats),
                forall|k: int|
                    0 <= k < nodes@.len() ==> (#[trigger] raw_hash(nodes@[k]@.hash)) is Some,
                object_views(written@) == object_views(old(written)@) + built_objects(
                    dir@,
                    entries@,
                    i as nat,
                    pats,
                ),
            decreases entries@.len() - i,
        {
            let entry = &entries[i];
            let ghost before = nodes@.map_values(|n: Node| n@);
            let ghost written_before = written@;
            let ghost views_before = object_views(written@);
            let node = match entry {
                DirEntry::File { name, content } => {
                    let path = child_path_of(dir, name);
                    if should_ignore(path.as_str(), patterns.as_slice()) {
                        assert(built_objects(dir@, entries@, (i + 1) as nat, pats) == built_objects(
                            dir@,
                            entries@,
                            i as nat,
                            pats,
                        ));
                        i = i + 1;
                        continue;
                    }
                    let blob = Object::create_blob(vstd::slice::slice_to_vec(content.as_slice()));
                    let node = Node::new(FileMode::RegularFile, name.clone(), blob.hash.clone());
                    written.push(blob);
                    assert(object_views(written@) =~= views_before + entry_objects(
                        dir@,
                        entries@[i as int],
                        pats,
                    ));
                    node
                },
                DirEntry::Directory { name, entries: children } => {
                    let path = child_path_of(dir, name);
                    if should_ignore(path.as_str(), patterns.as_slice()) {
                        assert(built_objects(dir@, entries@, (i + 1) as nat, pats) == built_objects(
                            dir@,
                            entries@,
                            i as nat,
                            pats,
                        ));
                        i = i + 1;
                        continue;
                    }
                    let child = Object::create_tree(path.as_str(), children, patterns, written);
                    let node = Node::new(FileMode::Directory, name.clone(), child.hash.clone());
                    let ghost mid = object_views(written@);
                    let ghost child_view = child@;
                    written.push(child);
                    assert(object_views(written@) =~= mid.push(child_view));
                    assert(object_views(written@) =~= views_before + entry_objects(
                        dir@,
                        entries@[i as int],
                        pats,
                    ));
                    node
                },
            };
            assert(node@ == built_node(dir@, entries@[i as int], pats));
            assert(object_views(written@) =~= object_views(old(written)@) + built_objects(
                dir@,
                entries@,
                (i + 1) as nat,
                pats,
            ));
            nodes.push(node);
            assert(nodes@.map_values(|n: Node| n@) =~= before.push(node@));
            assert forall|k: int| 0 <= k < nodes@.len() implies (#[trigger] raw_hash(nodes@[k]@.hash)) is Some by {
                if k < nodes@.len() - 1 {
                    assert(nodes@[k]@ == before[k]);
                }
            }
            i = i + 1;
        }
        let ghost ns = nodes@.map_values(|n: Node| n@);
        proof {
            assert forall|k: int| 0 <= k < ns.len() implies (#[trigger] raw_hash(ns[k].hash)) is Some by {
                assert(ns[k] == nodes@[k]@);
            }
            crate::tree::lemma_tree_bytes_some(ns);
        }
        match Object::new(ObjectType::Tree, Metadata::Tree(Tree::new(nodes))) {
            Ok(o) => o,
            Err(_) => vstd::pervasive::unreached(),
        }
    }
}

} // verus!
