//! Directory listings: entries of mode, name and child hash, and their binary
//! encoding.
use vstd::prelude::*;
use vstd::utf8::{decode_utf8, encode_utf8, encode_utf8_decode_utf8, valid_utf8};

use crate::error::ObjectError;
use crate::primitives::{
    hex_bytes, hex_decodable, hex_decode, hex_digit, hex_encode, hex_nibble, hex_text, is_hex_byte,
};
use crate::text::{
    all_digits, chars_of, decimal_of, digits_value, find_zero, first_zero, is_space,
    lemma_digits_push, lemma_encode_utf8_concat, lemma_encode_utf8_nonzero, lemma_first_zero_after,
    lemma_first_zero_bounds, lemma_two_words, parse_decimal, string_of, word_spans, words_of,
};

verus! {

/// The kind of a tree entry.
#[derive(Clone, Copy, Debug, PartialEq, Eq, Structural)]
pub enum FileMode {
    RegularFile,
    ExecutableFile,
    SymbolicLink,
    Directory,
}

/// The mode number of each kind of entry.
pub open spec fn mode_value(m: FileMode) -> u32 {
    match m {
        FileMode::RegularFile => 100644,
        FileMode::ExecutableFile => 100755,
        FileMode::SymbolicLink => 120000,
        FileMode::Directory => 40000,
    }
}

/// The kind of entry a mode number stands for, if any.
pub open spec fn mode_of_value(v: u32) -> Option<FileMode> {
    if v == 100644 {
        Some(FileMode::RegularFile)
    } else if v == 100755 {
        Some(FileMode::ExecutableFile)
    } else if v == 120000 {
        Some(FileMode::SymbolicLink)
    } else if v == 40000 {
        Some(FileMode::Directory)
    } else {
        None
    }
}

/// The mode as written in an encoded tree: six ASCII digits.
pub open spec fn mode_code(m: FileMode) -> Seq<u8> {
    match m {
        FileMode::RegularFile => seq![49u8, 48, 48, 54, 52, 52],
        FileMode::ExecutableFile => seq![49u8, 48, 48, 55, 53, 53],
        FileMode::SymbolicLink => seq![49u8, 50, 48, 48, 48, 48],
        FileMode::Directory => seq![48u8, 52, 48, 48, 48, 48],
    }
}

/// The object tag shown for each kind of entry. Executables and symbolic links
/// both show `commit`; only regular files and directories name the kind of
/// object they refer to.
pub open spec fn mode_tag(m: FileMode) -> Seq<char> {
    match m {
        FileMode::RegularFile => "blob"@,
        FileMode::ExecutableFile => "commit"@,
        FileMode::SymbolicLink => "commit"@,
        FileMode::Directory => "tree"@,
    }
}

/// The mode number as text.
pub open spec fn mode_text(m: FileMode) -> Seq<char> {
    match m {
        FileMode::RegularFile => "100644"@,
        FileMode::ExecutableFile => "100755"@,
        FileMode::SymbolicLink => "120000"@,
        FileMode::Directory => "040000"@,
    }
}

impl FileMode {
    /// The object tag shown for entries of this kind.
    pub fn as_str(&self) -> (r: &'static str)
        ensures
            r@ == mode_tag(*self),
    {
        match self {
            FileMode::RegularFile => "blob",
            FileMode::Directory => "tree",
            FileMode::SymbolicLink => "commit",
            FileMode::ExecutableFile => "commit",
        }
    }

    /// The kind of entry for a mode number; `None` for a number that is not a mode.
    pub fn from_u32(mode: u32) -> (r: Option<FileMode>)
        ensures
            r == mode_of_value(mode),
    {
        match mode {
            100644 => Some(FileMode::RegularFile),
            100755 => Some(FileMode::ExecutableFile),
            120000 => Some(FileMode::SymbolicLink),
            40000 => Some(FileMode::Directory),
            _ => None,
        }
    }

    /// The mode number as text, six digits.
    pub fn as_u32_str(&self) -> (r: &'static str)
        ensures
            r@ == mode_text(*self),
    {
        match self {
            FileMode::RegularFile => "100644",
            FileMode::Directory => "040000",
            FileMode::SymbolicLink => "120000",
            FileMode::ExecutableFile => "100755",
        }
    }

    /// The mode number as the ASCII digits of an encoded tree.
    pub fn code_bytes(&self) -> (r: Vec<u8>)
        ensures
            r@ == mode_code(*self),
    {
        let r = match self {
            FileMode::RegularFile => vec![49u8, 48, 48, 54, 52, 52],
            FileMode::ExecutableFile => vec![49u8, 48, 48, 55, 53, 53],
            FileMode::SymbolicLink => vec![49u8, 50, 48, 48, 48, 48],
            FileMode::Directory => vec![48u8, 52, 48, 48, 48, 48],
        };
        assert(r@ =~= mode_code(*self));
        r
    }
}

/// What a tree entry holds, as mathematical values.
pub struct NodeModel {
    pub mode: FileMode,
    pub name: Seq<char>,
    pub hash: Seq<char>,
}

/// One entry of a tree: the kind of the child, its name within the directory,
/// and the hash of the child object as hex text.
#[derive(Debug)]
pub struct Node {
    pub mode: FileMode,
    pub name: String,
    pub hash: String,
}

impl View for Node {
    type V = NodeModel;

    open spec fn view(&self) -> NodeModel {
        NodeModel { mode: self.mode, name: self.name@, hash: self.hash@ }
    }
}

impl Node {
    pub fn new(mode: FileMode, name: String, hash: String) -> (r: Node)
        ensures
            r@ == (NodeModel { mode, name: name@, hash: hash@ }),
    {
        Node { mode, name, hash }
    }
}

/// A directory listing: its entries in listing order.
#[derive(Debug)]
pub struct Tree {
    pub data: Vec<Node>,
}

impl View for Tree {
    type V = Seq<NodeModel>;

    open spec fn view(&self) -> Seq<NodeModel> {
        self.data@.map_values(|n: Node| n@)
    }
}

/// The raw twenty bytes that an entry's hash text spells, where it is forty hex digits.
pub open spec fn raw_hash(hash: Seq<char>) -> Option<Seq<u8>> {
    let t = encode_utf8(hash);
    if t.len() == 40 && hex_decodable(t) {
        Some(hex_bytes(t))
    } else {
        None
    }
}

/// The encoding of one entry: mode digits, a space, the name, a NUL byte, and the
/// twenty raw bytes of the hash.
pub open spec fn entry_bytes(n: NodeModel) -> Option<Seq<u8>> {
    match raw_hash(n.hash) {
        Some(h) => Some(mode_code(n.mode) + seq![32u8] + encode_utf8(n.name) + seq![0u8] + h),
        None => None,
    }
}

/// The body of a tree: its entries' encodings one after another, or `None` where
/// some entry's hash is not forty hex digits.
pub open spec fn tree_bytes(nodes: Seq<NodeModel>) -> Option<Seq<u8>>
    decreases nodes.len(),
{
    if nodes.len() == 0 {
        Some(Seq::empty())
    } else {
        match (tree_bytes(nodes.drop_last()), entry_bytes(nodes.last())) {
            (Some(a), Some(b)) => Some(a + b),
            _ => None,
        }
    }
}

impl Tree {
    pub fn new(data: Vec<Node>) -> (r: Tree)
        ensures
            r.data@ == data@,
    {
        Tree { data }
    }

    /// The encoded body of this tree; `InvalidHash` where an entry's hash is not
    /// forty hex digits.
    pub fn as_bytes(&self) -> (r: Result<Vec<u8>, ObjectError>)
        ensures
            match tree_bytes(self@) {
                Some(b) => r matches Ok(v) && v@ == b,
                None => r == Err::<Vec<u8>, ObjectError>(ObjectError::InvalidHash),
            },
    {
        let mut out: Vec<u8> = Vec::new();
        let mut i: usize = 0;
        while i < self.data.len()
            invariant
                0 <= i <= self.data@.len(),
                tree_bytes(self@.take(i as int)) == Some(out@),
            decreases self.data@.len() - i,
        {
            let node = &self.data[i];
            assert(self@.take(i + 1).drop_last() =~= self@.take(i as int));
            assert(self@.take(i + 1).last() == node@);
            let text = node.hash.as_str().as_bytes();
            if text.len() != 40 {
                proof { lemma_tree_bytes_none(self@, i as int); }
                return Err(ObjectError::InvalidHash);
            }
            let raw = match hex_decode(text) {
                Ok(raw) => raw,
                Err(_) => {
                    proof { lemma_tree_bytes_none(self@, i as int); }
                    return Err(ObjectError::InvalidHash);
                },
            };
            let code = node.mode.code_bytes();
            out.extend_from_slice(code.as_slice());
            out.push(32u8);
            out.extend_from_slice(node.name.as_str().as_bytes());
            out.push(0u8);
            out.extend_from_slice(raw.as_slice());
            assert(out@ =~= tree_bytes(self@.take(i as int))->Some_0 + entry_bytes(node@)->Some_0);
            i = i + 1;
        }
        assert(self@.take(i as int) =~= self@);
        Ok(out)
    }
}

/// The text form of a tree: for each entry its mode number, a space, its name, a
/// NUL character and its hash as hex text.
pub open spec fn tree_text(ns: Seq<NodeModel>) -> Seq<char>
    decreases ns.len(),
{
    if ns.len() == 0 {
        Seq::empty()
    } else {
        let n = ns.last();
        tree_text(ns.drop_last()) + mode_text(n.mode) + seq![' '] + n.name + seq!['\0'] + n.hash
    }
}

/// The names of a tree's entries, each on a line of its own.
pub open spec fn name_listing(ns: Seq<NodeModel>) -> Seq<char>
    decreases ns.len(),
{
    if ns.len() == 0 {
        Seq::empty()
    } else {
        name_listing(ns.drop_last()) + ns.last().name + seq!['\n']
    }
}

/// The long listing of a tree: for each entry a line with its mode number, its
/// object tag, its hash and its name, separated by spaces.
pub open spec fn long_listing(ns: Seq<NodeModel>) -> Seq<char>
    decreases ns.len(),
{
    if ns.len() == 0 {
        Seq::empty()
    } else {
        let n = ns.last();
        long_listing(ns.drop_last()) + mode_text(n.mode) + seq![' '] + mode_tag(n.mode) + seq![' ']
            + n.hash + seq![' '] + n.name + seq!['\n']
    }
}

impl Tree {
    /// The text form of this tree, with hashes as hex text.
    pub fn as_str(&self) -> (r: String)
        ensures
            r@ == tree_text(self@),
    {
        let mut out = String::new();
        let mut i: usize = 0;
        while i < self.data.len()
            invariant
                0 <= i <= self.data@.len(),
                out@ == tree_text(self@.take(i as int)),
            decreases self.data@.len() - i,
        {
            let node = &self.data[i];
            assert(self@.take(i + 1).drop_last() =~= self@.take(i as int));
            assert(self@.take(i + 1).last() == node@);
            out.push_str(node.mode.as_u32_str());
            out.push(' ');
            out.push_str(node.name.as_str());
            out.push('\0');
            out.push_str(node.hash.as_str());
            i = i + 1;
        }
        assert(self@.take(i as int) =~= self@);
        out
    }

    /// The names of this tree's entries, one per line, as `ls-tree --name-only`
    /// lists them.
    pub fn print_tree(&self) -> (r: String)
        ensures
            r@ == name_listing(self@),
    {
        let mut out = String::new();
        let mut i: usize = 0;
        while i < self.data.len()
            invariant
                0 <= i <= self.data@.len(),
                out@ == name_listing(self@.take(i as int)),
            decreases self.data@.len() - i,
        {
            let node = &self.data[i];
            assert(self@.take(i + 1).drop_last() =~= self@.take(i as int));
            assert(self@.take(i + 1).last() == node@);
            out.push_str(node.name.as_str());
            out.push('\n');
            i = i + 1;
        }
        assert(self@.take(i as int) =~= self@);
        out
    }

    /// One line per entry with its mode number, object tag, hash and name.
    pub fn print_pretty_tree(&self) -> (r: String)
        ensures
            r@ == long_listing(self@),
    {
        let mut out = String::new();
        let mut i: usize = 0;
        while i < self.data.len()
            invariant
                0 <= i <= self.data@.len(),
                out@ == long_listing(self@.take(i as int)),
            decreases self.data@.len() - i,
        {
            let node = &self.data[i];
            assert(self@.take(i + 1).drop_last() =~= self@.take(i as int));
            assert(self@.take(i + 1).last() == node@);
            out.push_str(node.mode.as_u32_str());
            out.push(' ');
            out.push_str(node.mode.as_str());
            out.push(' ');
            out.push_str(node.hash.as_str());
            out.push(' ');
            out.push_str(node.name.as_str());
            out.push('\n');
            i = i + 1;
        }
        assert(self@.take(i as int) =~= self@);
        out
    }
}

/// Reads the entry at the front of `b`: the entry and the number of bytes it takes.
/// Its line runs to the first NUL byte and must be UTF-8 text of exactly two
/// words, a decimal mode number and a name; twenty raw hash bytes follow the NUL.
pub open spec fn decode_entry(b: Seq<u8>) -> Result<(NodeModel, int), ObjectError> {
    let z = first_zero(b);
    let line = b.take(z);
    let cs = decode_utf8(line);
    let sp = word_spans(cs);
    if z >= b.len() || !valid_utf8(line) || sp.len() != 2 {
        Err(ObjectError::MalformedTree)
    } else {
        match decimal_of(encode_utf8(cs.subrange(sp[0].0, sp[0].1)), u32::MAX as nat) {
            None => Err(ObjectError::MalformedTree),
            Some(v) => match mode_of_value(v as u32) {
                None => Err(ObjectError::InvalidFileMode),
                Some(m) => if b.len() < z + 21 {
                    Err(ObjectError::MalformedTree)
                } else {
                    Ok(
                        (
                            NodeModel {
                                mode: m,
                                name: cs.subrange(sp[1].0, sp[1].1),
                                hash: hex_text(b.subrange(z + 1, z + 21)),
                            },
                            z + 21,
                        ),
                    )
                },
            },
        }
    }
}

proof fn lemma_decode_entry_advances(b: Seq<u8>)
    ensures
        decode_entry(b) matches Ok((n, k)) ==> 0 < k <= b.len(),
{
    lemma_first_zero_bounds(b);
}

/// Reads entries one after another until the bytes run out.
pub open spec fn decode_entries(b: Seq<u8>) -> Result<Seq<NodeModel>, ObjectError>
    decreases b.len(),
    via decode_entries_decreases
{
    if b.len() == 0 {
        Ok(Seq::empty())
    } else {
        match decode_entry(b) {
            Err(e) => Err(e),
            Ok((n, k)) => match decode_entries(b.skip(k)) {
                Ok(ns) => Ok(seq![n] + ns),
                Err(e) => Err(e),
            },
        }
    }
}

#[via_fn]
proof fn decode_entries_decreases(b: Seq<u8>) {
    lemma_decode_entry_advances(b);
}

/// `r` with `acc` in front of the entries it holds, where it holds any.
pub open spec fn prefixed(acc: Seq<NodeModel>, r: Result<Seq<NodeModel>, ObjectError>) -> Result<
    Seq<NodeModel>,
    ObjectError,
> {
    match r {
        Ok(ns) => Ok(acc + ns),
        Err(e) => Err(e),
    }
}

/// Decodes the entry that starts at `pos`; on success also returns where the next
/// one starts.
fn decode_entry_at(body: &[u8], pos: usize) -> (r: Result<(Node, usize), ObjectError>)
    requires
        pos < body@.len(),
    ensures
        match decode_entry(body@.skip(pos as int)) {
            Ok((n, k)) => r matches Ok((node, next)) && node@ == n && next == pos + k,
            Err(e) => r == Err::<(Node, usize), ObjectError>(e),
        },
{
    let ghost b = body@.skip(pos as int);
    proof { lemma_first_zero_bounds(b); }
    let z = find_zero(body, pos);
    if z >= body.len() {
        return Err(ObjectError::MalformedTree);
    }
    let line = vstd::slice::slice_to_vec(&body[pos..z]);
    assert(line@ =~= b.take(z - pos));
    let text = match String::from_utf8(line) {
        Ok(t) => t,
        Err(_) => {
            return Err(ObjectError::MalformedTree);
        },
    };
    proof { encode_utf8_decode_utf8(text@); }
    let cs = chars_of(text.as_str());
    let spans = words_of(cs.as_slice());
    if spans.len() != 2 {
        return Err(ObjectError::MalformedTree);
    }
    let (a0, a1) = spans[0];
    let (b0, b1) = spans[1];
    assert(spans@[0].0 < spans@[0].1 <= cs@.len());
    assert(spans@[1].0 < spans@[1].1 <= cs@.len());
    let mode_word = string_of(&cs.as_slice()[a0..a1]);
    let value = match parse_decimal(mode_word.as_str().as_bytes(), 4294967295u64) {
        Some(v) => v,
        None => {
            return Err(ObjectError::MalformedTree);
        },
    };
    let mode = match FileMode::from_u32(value as u32) {
        Some(m) => m,
        None => {
            return Err(ObjectError::InvalidFileMode);
        },
    };
    if body.len() - (z + 1) < 20 {
        return Err(ObjectError::MalformedTree);
    }
    let hash = hex_encode(&body[z + 1..z + 21]);
    let name = string_of(&cs.as_slice()[b0..b1]);
    assert(body@.subrange(z + 1, z + 21) =~= b.subrange(z - pos + 1, z - pos + 21));
    Ok((Node { mode, name, hash }, z + 21))
}

impl Tree {
    /// Decodes a tree body: entries one after another until the bytes run out.
    pub fn parse_tree(body: &[u8]) -> (r: Result<Tree, ObjectError>)
        ensures
            match decode_entries(body@) {
                Ok(ns) => r matches Ok(t) && t@ == ns,
                Err(e) => r == Err::<Tree, ObjectError>(e),
            },
    {
        let mut nodes: Vec<Node> = Vec::new();
        let mut pos: usize = 0;
        assert(body@.skip(0) =~= body@);
        while pos < body.len()
            invariant
                0 <= pos <= body@.len(),
                decode_entries(body@) == prefixed(
                    nodes@.map_values(|n: Node| n@),
                    decode_entries(body@.skip(pos as int)),
                ),
            decreases body@.len() - pos,
        {
            let ghost rest = body@.skip(pos as int);
            let ghost before = nodes@.map_values(|n: Node| n@);
            match decode_entry_at(body, pos) {
                Err(e) => {
                    return Err(e);
                },
                Ok((node, next)) => {
                    proof {
                        lemma_decode_entry_advances(rest);
                        assert(rest.skip(next - pos) =~= body@.skip(next as int));
                    }
                    nodes.push(node);
                    assert(nodes@.map_values(|n: Node| n@) =~= before.push(node@));
                    proof {
                        let ghost tail = decode_entries(body@.skip(next as int));
                        if let Ok(ns) = tail {
                            assert(before + (seq![node@] + ns) =~= before.push(node@) + ns);
                        }
                    }
                    pos = next;
                },
            }
        }
        assert(body@.skip(pos as int) =~= Seq::<u8>::empty());
        assert(nodes@.map_values(|n: Node| n@) + Seq::<NodeModel>::empty() =~= nodes@.map_values(|n: Node| n@));
        Ok(Tree { data: nodes })
    }
}

/// A tree whose every entry hash is forty hex digits has an encoding.
pub proof fn lemma_tree_bytes_some(nodes: Seq<NodeModel>)
    requires
        forall|k: int| 0 <= k < nodes.len() ==> (#[trigger] raw_hash(nodes[k].hash)) is Some,
    ensures
        tree_bytes(nodes) is Some,
    decreases nodes.len(),
{
    if nodes.len() > 0 {
        let p = nodes.drop_last();
        assert forall|k: int| 0 <= k < p.len() implies (#[trigger] raw_hash(p[k].hash)) is Some by {
            assert(p[k] == nodes[k]);
        }
        lemma_tree_bytes_some(p);
        assert(raw_hash(nodes[nodes.len() - 1].hash) is Some);
    }
}

/// A name that survives encoding: not empty, with no whitespace and no NUL.
pub open spec fn valid_name(name: Seq<char>) -> bool {
    name.len() > 0 && forall|i: int|
        0 <= i < name.len() ==> !is_space(#[trigger] name[i]) && name[i] != '\0'
}

pub open spec fn is_lower_hex(c: char) -> bool {
    ('0' <= c <= '9') || ('a' <= c <= 'f')
}

/// A hash as objects are addressed: forty lower-case hex digits.
pub open spec fn valid_hash(hash: Seq<char>) -> bool {
    hash.len() == 40 && forall|i: int| 0 <= i < hash.len() ==> is_lower_hex(#[trigger] hash[i])
}

pub open spec fn valid_node(n: NodeModel) -> bool {
    valid_name(n.name) && valid_hash(n.hash)
}

/// The mode digits as characters.
pub open spec fn mode_chars(m: FileMode) -> Seq<char> {
    match m {
        FileMode::RegularFile => seq!['1', '0', '0', '6', '4', '4'],
        FileMode::ExecutableFile => seq!['1', '0', '0', '7', '5', '5'],
        FileMode::SymbolicLink => seq!['1', '2', '0', '0', '0', '0'],
        FileMode::Directory => seq!['0', '4', '0', '0', '0', '0'],
    }
}

proof fn lemma_six_digits(a: u8, b: u8, c: u8, d: u8, e: u8, f: u8)
    requires
        48 <= a <= 57 && 48 <= b <= 57 && 48 <= c <= 57 && 48 <= d <= 57 && 48 <= e <= 57 && 48 <= f
            <= 57,
    ensures
        all_digits(seq![a, b, c, d, e, f]),
        digits_value(seq![a, b, c, d, e, f]) == (((((a - 48) as nat * 10 + (b - 48) as nat) * 10 + (c
            - 48) as nat) * 10 + (d - 48) as nat) * 10 + (e - 48) as nat) * 10 + (f - 48) as nat,
{
    let s0 = Seq::<u8>::empty();
    lemma_digits_push(s0, a);
    lemma_digits_push(s0.push(a), b);
    lemma_digits_push(s0.push(a).push(b), c);
    lemma_digits_push(s0.push(a).push(b).push(c), d);
    lemma_digits_push(s0.push(a).push(b).push(c).push(d), e);
    lemma_digits_push(s0.push(a).push(b).push(c).push(d).push(e), f);
    assert(s0.push(a).push(b).push(c).push(d).push(e).push(f) =~= seq![a, b, c, d, e, f]);
}

/// The mode digits encode as `mode_code` and read back as the mode number.
proof fn lemma_mode_code(m: FileMode)
    ensures
        encode_utf8(mode_chars(m)) == mode_code(m),
        forall|k: int| 0 <= k < mode_chars(m).len() ==> !is_space(#[trigger] mode_chars(m)[k]),
        mode_chars(m).len() == 6,
        decimal_of(mode_code(m), u32::MAX as nat) == Some(mode_value(m) as nat),
{
    let mc = mode_chars(m);
    assert(vstd::utf8::is_ascii_chars(mc));
    vstd::utf8::is_ascii_chars_encode_utf8(mc);
    assert(encode_utf8(mc) =~= mode_code(m));
    let c = mode_code(m);
    lemma_six_digits(c[0], c[1], c[2], c[3], c[4], c[5]);
    assert(c[0] != 43);
    assert(c =~= seq![c[0], c[1], c[2], c[3], c[4], c[5]]);
}

/// Forty lower-case hex digits spell twenty bytes, whose hex text they are.
proof fn lemma_valid_hash_raw(h: Seq<char>)
    requires
        valid_hash(h),
    ensures
        raw_hash(h) matches Some(d) && d.len() == 20 && hex_text(d) == h,
{
    assert(vstd::utf8::is_ascii_chars(h)) by {
        assert forall|i: int| 0 <= i < h.len() implies '\0' <= #[trigger] h[i] <= '\u{7f}' by {
            assert(is_lower_hex(h[i]));
        }
    }
    vstd::utf8::is_ascii_chars_encode_utf8(h);
    let t = encode_utf8(h);
    assert forall|i: int| 0 <= i < t.len() implies is_hex_byte(#[trigger] t[i]) && hex_nibble(t[i])
        < 16 && hex_digit(hex_nibble(t[i])) == h[i] by {
        assert(t[i] == h[i] as u8);
        assert(is_lower_hex(h[i]));
    }
    assert(hex_decodable(t));
    let d = hex_bytes(t);
    assert forall|i: int| 0 <= i < 40 implies #[trigger] hex_text(d)[i] == h[i] by {
        let j = i / 2;
        let hi = hex_nibble(t[2 * j]);
        let lo = hex_nibble(t[2 * j + 1]);
        assert(hi < 16 && lo < 16);
        assert(d[j] == (hi * 16 + lo) as u8);
        assert((hi * 16 + lo) / 16 == hi && (hi * 16 + lo) % 16 == lo) by (nonlinear_arith)
            requires hi < 16, lo < 16;
        if i % 2 == 0 {
            assert(i == 2 * j);
        } else {
            assert(i == 2 * j + 1);
        }
    }
    assert(hex_text(d) =~= h);
}

/// An entry with a valid name and hash is read back from its encoding, whatever
/// follows it.
proof fn lemma_entry_round_trip(n: NodeModel, rest: Seq<u8>)
    requires
        valid_node(n),
    ensures
        entry_bytes(n) matches Some(e) && decode_entry(e + rest) == Ok::<(NodeModel, int), ObjectError>((n, e.len() as int)),
{
    lemma_valid_hash_raw(n.hash);
    lemma_mode_code(n.mode);
    let d = raw_hash(n.hash)->Some_0;
    let mc = mode_chars(n.mode);
    let cs = mc + seq![' '] + n.name;
    let name_bytes = encode_utf8(n.name);
    let line = mode_code(n.mode) + seq![32u8] + name_bytes;
    let e = line + seq![0u8] + d;
    let b = e + rest;
    // the line is the encoding of `cs`
    lemma_encode_utf8_concat(mc, seq![' ']);
    lemma_encode_utf8_concat(mc + seq![' '], n.name);
    assert(encode_utf8(seq![' ']) =~= seq![32u8]) by {
        assert(vstd::utf8::is_ascii_chars(seq![' ']));
        vstd::utf8::is_ascii_chars_encode_utf8(seq![' ']);
    }
    assert(encode_utf8(cs) == line);
    vstd::utf8::encode_utf8_valid_utf8(cs);
    vstd::utf8::encode_utf8_decode_utf8(cs);
    // the first zero ends the line
    assert forall|i: int| 0 <= i < cs.len() implies #[trigger] cs[i] != '\0' by {
        if i < 6 {
            assert(cs[i] == mc[i]);
        } else if i == 6 {
            assert(cs[i] == ' ');
        } else {
            assert(cs[i] == n.name[i - 7]);
        }
    }
    lemma_encode_utf8_nonzero(cs);
    assert(b =~= line + (seq![0u8] + d + rest));
    lemma_first_zero_after(line, seq![0u8] + d + rest);
    let z = line.len() as int;
    assert(first_zero(b) == z);
    assert(b.take(z) =~= line);
    // the two words
    assert forall|k: int| 0 <= k < n.name.len() implies !is_space(#[trigger] n.name[k]) by {}
    lemma_two_words(mc, n.name);
    assert(cs.subrange(0, 6) =~= mc);
    assert(cs.subrange(7, (7 + n.name.len()) as int) =~= n.name);
    assert(b.subrange(z + 1, z + 21) =~= d);
    assert(mode_of_value(mode_value(n.mode)) == Some(n.mode));
}

/// The encoding of a non-empty list of entries starts with its first entry's.
proof fn lemma_tree_bytes_front(ns: Seq<NodeModel>)
    requires
        ns.len() > 0,
        tree_bytes(ns) is Some,
    ensures
        entry_bytes(ns[0]) is Some,
        tree_bytes(ns.drop_first()) is Some,
        tree_bytes(ns)->Some_0 == entry_bytes(ns[0])->Some_0 + tree_bytes(ns.drop_first())->Some_0,
    decreases ns.len(),
{
    if ns.len() == 1 {
        assert(ns.drop_last() =~= Seq::<NodeModel>::empty());
        assert(ns.drop_first() =~= Seq::<NodeModel>::empty());
        assert(tree_bytes(ns)->Some_0 =~= entry_bytes(ns[0])->Some_0 + Seq::<u8>::empty());
    } else {
        let p = ns.drop_last();
        lemma_tree_bytes_front(p);
        assert(p[0] == ns[0]);
        assert(p.drop_first() =~= ns.drop_first().drop_last());
        assert(ns.drop_first().last() == ns.last());
        assert(tree_bytes(ns)->Some_0 =~= entry_bytes(ns[0])->Some_0 + tree_bytes(ns.drop_first())->Some_0);
    }
}

/// Decoding the encoding of a tree whose entries have valid names and hashes
/// gives back the same entries in the same order.
pub proof fn lemma_tree_round_trip(ns: Seq<NodeModel>)
    requires
        forall|i: int| 0 <= i < ns.len() ==> valid_node(#[trigger] ns[i]),
    ensures
        tree_bytes(ns) matches Some(b) && decode_entries(b) == Ok::<Seq<NodeModel>, ObjectError>(ns),
    decreases ns.len(),
{
    assert forall|k: int| 0 <= k < ns.len() implies (#[trigger] raw_hash(ns[k].hash)) is Some by {
        lemma_valid_hash_raw(ns[k].hash);
    }
    lemma_tree_bytes_some(ns);
    if ns.len() == 0 {
        assert(ns =~= Seq::<NodeModel>::empty());
    } else {
        lemma_tree_bytes_front(ns);
        let t = ns.drop_first();
        assert forall|i: int| 0 <= i < t.len() implies valid_node(#[trigger] t[i]) by {
            assert(t[i] == ns[i + 1]);
        }
        lemma_tree_round_trip(t);
        let e = entry_bytes(ns[0])->Some_0;
        let tb = tree_bytes(t)->Some_0;
        lemma_entry_round_trip(ns[0], tb);
        let b = e + tb;
        assert(b.len() > 0);
        assert(b.skip(e.len() as int) =~= tb);
        assert(b == tree_bytes(ns)->Some_0);
        assert(decode_entry(b) == Ok::<(NodeModel, int), ObjectError>((ns[0], e.len() as int)));
        assert(decode_entries(b) == Ok::<Seq<NodeModel>, ObjectError>(seq![ns[0]] + t));
        assert(seq![ns[0]] + t =~= ns);
    }
}

/// Where the entry at `i` has no encoding, the whole tree has none.
proof fn lemma_tree_bytes_none(nodes: Seq<NodeModel>, i: int)
    requires
        0 <= i < nodes.len(),
        entry_bytes(nodes[i]) is None,
    ensures
        tree_bytes(nodes) is None,
    decreases nodes.len(),
{
    if i < nodes.len() - 1 {
        assert(nodes.drop_last()[i] == nodes[i]);
        lemma_tree_bytes_none(nodes.drop_last(), i);
    }
}

} // verus!
