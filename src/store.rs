//! Where objects live on disk: a two-level fan-out under the repository's
//! `objects` directory.
use vstd::prelude::*;

use crate::text::chars_of;

verus! {

/// The name of the directory that holds a repository's metadata.
pub const REPO_FOLDER_NAME: &'static str = ".revy";

/// `base`, then `/name` where a repository name is given, then `/.revy`.
pub open spec fn repository_path_of(base: Seq<char>, name: Option<&str>) -> Seq<char> {
    match name {
        Some(n) => base + seq!['/'] + n@ + seq!['/'] + REPO_FOLDER_NAME@,
        None => base + seq!['/'] + REPO_FOLDER_NAME@,
    }
}

/// The metadata directory of the repository in `base`, or in its subdirectory
/// `repository_name` where one is given.
pub fn repository_path(base: &str, repository_name: Option<&str>) -> (r: String)
    ensures
        r@ == repository_path_of(base@, repository_name),
{
    let mut r = base.to_owned();
    match repository_name {
        Some(n) => {
            r.push('/');
            r.push_str(n);
        },
        None => {},
    }
    r.push('/');
    r.push_str(REPO_FOLDER_NAME);
    r
}

/// How many characters of a hash name its fan-out directory: two, or the whole
/// hash where it is shorter.
pub open spec fn fan_len(hash: Seq<char>) -> int {
    if hash.len() < 2 {
        hash.len() as int
    } else {
        2
    }
}

/// `root/objects/<first two characters>/<the rest>`.
pub open spec fn object_path(root: Seq<char>, hash: Seq<char>) -> Seq<char> {
    root + "/objects/"@ + hash.take(fan_len(hash)) + seq!['/'] + hash.skip(fan_len(hash))
}

/// For a hash of forty hex digits the path is `root/objects/`, the first two
/// digits, `/`, and the other thirty-eight.
pub proof fn lemma_fan_out(root: Seq<char>, hash: Seq<char>)
    requires
        hash.len() == 40,
    ensures
        object_path(root, hash) == root + "/objects/"@ + hash.subrange(0, 2) + seq!['/']
            + hash.subrange(2, 40),
{
    assert(hash.take(2) =~= hash.subrange(0, 2));
    assert(hash.skip(2) =~= hash.subrange(2, 40));
}

/// The path of the file that holds the object `hash` in the repository at
/// `root`. The hash is not checked: a malformed one gives a path that simply
/// holds no object.
pub fn resolve(root: &str, hash: &str) -> (r: String)
    ensures
        r@ == object_path(root@, hash@),
{
    let cs = chars_of(hash);
    let split: usize = if cs.len() < 2 {
        cs.len()
    } else {
        2
    };
    let mut r = root.to_owned();
    r.push_str("/objects/");
    let mut i: usize = 0;
    while i < cs.len()
        invariant
            0 <= i <= cs@.len(),
            split == fan_len(hash@),
            cs@ == hash@,
            i <= split ==> r@ == root@ + "/objects/"@ + hash@.take(i as int),
            i > split ==> r@ == root@ + "/objects/"@ + hash@.take(split as int) + seq!['/']
                + hash@.subrange(split as int, i as int),
        decreases cs@.len() - i,
    {
        if i == split {
            r.push('/');
        }
        r.push(cs[i]);
        proof {
            if i + 1 <= split {
                assert(hash@.take(i + 1) =~= hash@.take(i as int).push(cs@[i as int]));
            } else if i == split {
                assert(hash@.subrange(split as int, i + 1) =~= seq![cs@[i as int]]);
            } else {
                assert(hash@.subrange(split as int, i + 1) =~= hash@.subrange(split as int, i as int).push(cs@[i as int]));
            }
        }
        i = i + 1;
    }
    if i <= split {
        r.push('/');
        assert(hash@.take(i as int) =~= hash@.take(split as int));
        assert(hash@.skip(split as int) =~= Seq::<char>::empty());
    } else {
        assert(hash@.subrange(split as int, i as int) =~= hash@.skip(split as int));
    }
    assert(r@ =~= object_path(root@, hash@));
    r
}

} // verus!
