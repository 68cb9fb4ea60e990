//! Objects: a blob or tree body together with its kind, size and content hash,
//! and the stored form, a header and the body compressed with zlib.
use vstd::prelude::*;
use vstd::utf8::{decode_utf8, encode_utf8, encode_utf8_decode_utf8, valid_utf8};

use crate::blob::{blob_body, blob_of_body, Blob};
use crate::error::ObjectError;
use crate::primitives::{
    hex_bytes, hex_decodable, hex_digit, hex_encode, hex_nibble, hex_text, is_hex_byte, sha1_digest,
    sha1_of, zlib_compress, zlib_decompress, zlib_inflate, zlib_of,
};
use crate::text::{
    all_digits, chars_of, decimal_of, decimal_text, digits_value, find_zero, first_zero, is_space,
    lemma_digits_push, lemma_encode_utf8_concat, lemma_encode_utf8_nonzero, lemma_first_zero_after,
    lemma_first_zero_bounds, lemma_two_words, parse_decimal, push_decimal, string_of, word_spans,
    words_of,
};
use crate::tree::{
    name_listing, tree_text, decode_entries, lemma_tree_round_trip, raw_hash, tree_bytes, valid_node, NodeModel, Tree,
};

verus! {

/// The two kinds of object.
#[derive(Clone, Copy, Debug, PartialEq, Eq, Structural)]
pub enum ObjectType {
    Tree,
    Blob,
}

/// The tag that names a kind in a stored header.
pub open spec fn kind_tag(k: ObjectType) -> Seq<char> {
    match k {
        ObjectType::Tree => "tree"@,
        ObjectType::Blob => "blob"@,
    }
}

/// The tag of a kind as the ASCII bytes of a stored header.
pub open spec fn kind_tag_bytes(k: ObjectType) -> Seq<u8> {
    match k {
        ObjectType::Tree => seq![116u8, 114, 101, 101],
        ObjectType::Blob => seq![98u8, 108, 111, 98],
    }
}

/// The kind that a tag names, if any.
pub open spec fn kind_of_tag(t: Seq<char>) -> Option<ObjectType> {
    if t == "tree"@ {
        Some(ObjectType::Tree)
    } else if t == "blob"@ {
        Some(ObjectType::Blob)
    } else {
        None
    }
}

impl ObjectType {
    /// The tag of this kind, `tree` or `blob`.
    pub fn as_str(&self) -> (r: &'static str)
        ensures
            r@ == kind_tag(*self),
    {
        match self {
            ObjectType::Tree => "tree",
            ObjectType::Blob => "blob",
        }
    }

    /// The kind named by a tag; `None` for anything but `tree` and `blob`.
    pub fn from_str(mode: &str) -> (r: Option<ObjectType>)
        ensures
            r == kind_of_tag(mode@),
    {
        let cs = chars_of(mode);
        proof {
            reveal_strlit("tree");
            reveal_strlit("blob");
        }
        if cs.len() == 4 && cs[0] == 't' && cs[1] == 'r' && cs[2] == 'e' && cs[3] == 'e' {
            assert(mode@ =~= "tree"@);
            Some(ObjectType::Tree)
        } else if cs.len() == 4 && cs[0] == 'b' && cs[1] == 'l' && cs[2] == 'o' && cs[3] == 'b' {
            assert(mode@ =~= "blob"@);
            Some(ObjectType::Blob)
        } else {
            assert(mode@ != "tree"@ && mode@ != "blob"@) by {
                if mode@ == "tree"@ {
                    assert(cs@[0] == 't' && cs@[1] == 'r' && cs@[2] == 'e' && cs@[3] == 'e');
                }
                if mode@ == "blob"@ {
                    assert(cs@[0] == 'b' && cs@[1] == 'l' && cs@[2] == 'o' && cs@[3] == 'b');
                }
            }
            None
        }
    }

    /// The tag of this kind as the bytes of a stored header.
    pub fn tag_bytes(&self) -> (r: Vec<u8>)
        ensures
            r@ == kind_tag_bytes(*self),
    {
        let r = match self {
            ObjectType::Tree => vec![116u8, 114, 101, 101],
            ObjectType::Blob => vec![98u8, 108, 111, 98],
        };
        assert(r@ =~= kind_tag_bytes(*self));
        r
    }
}

/// The body of an object, as mathematical values.
pub enum MetadataModel {
    Tree(Seq<NodeModel>),
    Blob(Seq<u8>),
}

/// The body of an object.
#[derive(Debug)]
pub enum Metadata {
    Tree(Tree),
    Blob(Blob),
}

impl View for Metadata {
    type V = MetadataModel;

    open spec fn view(&self) -> MetadataModel {
        match self {
            Metadata::Tree(t) => MetadataModel::Tree(t@),
            Metadata::Blob(b) => MetadataModel::Blob(b@),
        }
    }
}

/// The kind of object a body belongs to.
pub open spec fn kind_of_body(m: MetadataModel) -> ObjectType {
    match m {
        MetadataModel::Tree(_) => ObjectType::Tree,
        MetadataModel::Blob(_) => ObjectType::Blob,
    }
}

/// The encoded bytes of a body; `None` for a tree with an entry whose hash is
/// not forty hex digits.
pub open spec fn body_bytes(m: MetadataModel) -> Option<Seq<u8>> {
    match m {
        MetadataModel::Tree(ns) => tree_bytes(ns),
        MetadataModel::Blob(b) => Some(blob_body(b)),
    }
}

/// The address of an object: the SHA-1 digest of its encoded body alone, the
/// header left out, as forty lower-case hex digits.
pub open spec fn object_hash(body: Seq<u8>) -> Seq<char> {
    hex_text(sha1_of(body))
}

/// An object as mathematical values.
pub struct ObjectModel {
    pub kind: ObjectType,
    pub hash: Seq<char>,
    pub size: nat,
    pub metadata: MetadataModel,
}

/// A blob or a tree with its kind, its hash and the size of its encoded body.
/// An object made by `new` carries the hash and size of its own body; one read
/// back from the store carries the hash it was looked up by and the size its
/// header gives.
#[derive(Debug)]
pub struct Object {
    pub kind: ObjectType,
    pub hash: String,
    pub size: usize,
    pub metadata: Metadata,
}

impl View for Object {
    type V = ObjectModel;

    open spec fn view(&self) -> ObjectModel {
        ObjectModel {
            kind: self.kind,
            hash: self.hash@,
            size: self.size as nat,
            metadata: self.metadata@,
        }
    }
}

/// Hashing is deterministic and depends on the content alone: equal bodies (blobs
/// with the same bytes, trees with the same entries in the same order) have equal
/// encodings and so equal hashes, whatever else differs between the objects.
pub proof fn lemma_hash_content_only(m1: MetadataModel, m2: MetadataModel)
    requires
        m1 == m2,
    ensures
        body_bytes(m1) == body_bytes(m2),
        body_bytes(m1) matches Some(b1) ==> object_hash(b1) == object_hash(body_bytes(m2)->Some_0),
{
}

/// The decimal spelling of `n` as characters.
pub open spec fn decimal_chars(n: nat) -> Seq<char> {
    decimal_text(n).map_values(|b: u8| b as char)
}

proof fn lemma_decimal_text(n: nat)
    ensures
        decimal_text(n).len() > 0,
        all_digits(decimal_text(n)),
        digits_value(decimal_text(n)) == n,
    decreases n,
{
    if n >= 10 {
        lemma_decimal_text(n / 10);
        let p = decimal_text(n / 10);
        lemma_digits_push(p, (48 + n % 10) as u8);
        assert forall|i: int| 0 <= i < decimal_text(n).len() implies crate::text::is_digit(
            #[trigger] decimal_text(n)[i],
        ) by {
            if i < p.len() {
                assert(decimal_text(n)[i] == p[i]);
            }
        }
        assert((n / 10) * 10 + n % 10 == n) by (nonlinear_arith);
    } else {
        assert(digits_value(decimal_text(n)) == digits_value(Seq::<u8>::empty()) * 10 + n) by {
            assert(decimal_text(n).drop_last() =~= Seq::<u8>::empty());
        }
    }
}

/// ASCII text without spaces or NUL characters, spelled by its bytes.
pub open spec fn plain_word(cs: Seq<char>, bytes: Seq<u8>) -> bool {
    &&& cs.len() > 0
    &&& encode_utf8(cs) == bytes
    &&& forall|i: int| 0 <= i < cs.len() ==> !is_space(#[trigger] cs[i]) && cs[i] != '\0'
}

proof fn lemma_decimal_chars(n: nat)
    ensures
        plain_word(decimal_chars(n), decimal_text(n)),
{
    lemma_decimal_text(n);
    let dc = decimal_chars(n);
    let dt = decimal_text(n);
    assert forall|i: int| 0 <= i < dc.len() implies '\0' <= #[trigger] dc[i] <= '\u{7f}' && !is_space(
        dc[i],
    ) && dc[i] != '\0' by {
        assert(crate::text::is_digit(dt[i]));
        assert(dc[i] == dt[i] as char);
    }
    assert(vstd::utf8::is_ascii_chars(dc));
    vstd::utf8::is_ascii_chars_encode_utf8(dc);
    assert forall|i: int| 0 <= i < dt.len() implies #[trigger] encode_utf8(dc)[i] == dt[i] by {
        assert(dc[i] == dt[i] as char);
        assert(crate::text::is_digit(dt[i]));
    }
    assert(encode_utf8(dc) =~= dt);
}

proof fn lemma_kind_tag(k: ObjectType)
    ensures
        plain_word(kind_tag(k), kind_tag_bytes(k)),
        kind_of_tag(kind_tag(k)) == Some(k),
{
    reveal_strlit("tree");
    reveal_strlit("blob");
    let t = kind_tag(k);
    assert(t.len() == 4);
    assert(vstd::utf8::is_ascii_chars(t));
    vstd::utf8::is_ascii_chars_encode_utf8(t);
    assert(encode_utf8(t) =~= kind_tag_bytes(k));
    assert("tree"@[0] != "blob"@[0]);
}

/// A header of two plain words: where its NUL is, and the two words it holds.
proof fn lemma_two_word_header(tc: Seq<char>, tb: Seq<u8>, wc: Seq<char>, wb: Seq<u8>, rest: Seq<u8>)
    requires
        plain_word(tc, tb),
        plain_word(wc, wb),
    ensures
        ({
            let line = tb + seq![32u8] + wb;
            let raw = line + seq![0u8] + rest;
            let cs = decode_utf8(line);
            &&& first_zero(raw) == line.len()
            &&& raw.take(line.len() as int) == line
            &&& valid_utf8(line)
            &&& cs == tc + seq![' '] + wc
            &&& word_spans(cs) == seq![(0int, tc.len() as int), ((tc.len() + 1) as int, (tc.len() + 1 + wc.len()) as int)]
            &&& cs.subrange(0, tc.len() as int) == tc
            &&& cs.subrange((tc.len() + 1) as int, cs.len() as int) == wc
            &&& raw.skip((line.len() + 1) as int) == rest
        }),
{
    let cs = tc + seq![' '] + wc;
    let line = tb + seq![32u8] + wb;
    let raw = line + seq![0u8] + rest;
    lemma_encode_utf8_concat(tc, seq![' ']);
    lemma_encode_utf8_concat(tc + seq![' '], wc);
    assert(encode_utf8(seq![' ']) =~= seq![32u8]) by {
        assert(vstd::utf8::is_ascii_chars(seq![' ']));
        vstd::utf8::is_ascii_chars_encode_utf8(seq![' ']);
    }
    assert(encode_utf8(cs) == line);
    vstd::utf8::encode_utf8_valid_utf8(cs);
    vstd::utf8::encode_utf8_decode_utf8(cs);
    assert forall|i: int| 0 <= i < cs.len() implies #[trigger] cs[i] != '\0' by {
        if i < tc.len() {
            assert(cs[i] == tc[i]);
        } else if i == tc.len() {
            assert(cs[i] == ' ');
        } else {
            assert(cs[i] == wc[i - tc.len() - 1]);
        }
    }
    lemma_encode_utf8_nonzero(cs);
    assert(raw =~= line + (seq![0u8] + rest));
    lemma_first_zero_after(line, seq![0u8] + rest);
    assert(raw.take(line.len() as int) =~= line);
    lemma_two_words(tc, wc);
    assert(cs.subrange(0, tc.len() as int) =~= tc);
    assert(cs.subrange((tc.len() + 1) as int, cs.len() as int) =~= wc);
    assert(raw.skip((line.len() + 1) as int) =~= rest);
}

/// Reading the header of an envelope gives back its kind, its size and its body.
pub proof fn lemma_envelope_round_trip(kind: ObjectType, size: nat, body: Seq<u8>)
    requires
        size <= usize::MAX,
    ensures
        parse_envelope(envelope(kind, size, body)) == Ok::<(ObjectType, nat, Seq<u8>), ObjectError>((kind, size, body)),
{
    lemma_kind_tag(kind);
    lemma_decimal_chars(size);
    lemma_decimal_text(size);
    assert(crate::text::is_digit(decimal_text(size)[0]));
    lemma_two_word_header(kind_tag(kind), kind_tag_bytes(kind), decimal_chars(size), decimal_text(size), body);
    assert(envelope(kind, size, body) =~= kind_tag_bytes(kind) + seq![32u8] + decimal_text(size) + seq![0u8] + body);
}

/// A header whose kind is known but whose size word is not a decimal number that
/// fits a `usize` is refused as a malformed header.
pub proof fn lemma_header_bad_size(hash: Seq<char>, kind: ObjectType, word: Seq<char>, body: Seq<u8>)
    requires
        plain_word(word, encode_utf8(word)),
        decimal_of(encode_utf8(word), usize::MAX as nat) is None,
    ensures
        decode_object(hash, kind_tag_bytes(kind) + seq![32u8] + encode_utf8(word) + seq![0u8] + body)
            == Err::<ObjectModel, ObjectError>(ObjectError::MalformedHeader),
{
    lemma_kind_tag(kind);
    lemma_two_word_header(kind_tag(kind), kind_tag_bytes(kind), word, encode_utf8(word), body);
}

/// Stored bytes whose header has no NUL terminator are refused as a malformed
/// header, whatever hash they are read under.
pub proof fn lemma_header_without_nul(hash: Seq<char>, raw: Seq<u8>)
    requires
        forall|i: int| 0 <= i < raw.len() ==> #[trigger] raw[i] != 0,
    ensures
        parse_envelope(raw) == Err::<(ObjectType, nat, Seq<u8>), ObjectError>(ObjectError::MalformedHeader),
        decode_object(hash, raw) == Err::<ObjectModel, ObjectError>(ObjectError::MalformedHeader),
{
    lemma_first_zero_after(raw, Seq::empty());
    assert(raw + Seq::<u8>::empty() =~= raw);
}

/// Storing an object and reading it back under its own hash gives back the same
/// object, for every object whose hash and size are those of its body and whose
/// tree entries, if any, have valid names and hashes.
pub proof fn lemma_stored_round_trip(o: ObjectModel)
    requires
        self_consistent(o),
        o.size <= usize::MAX,
        o.metadata matches MetadataModel::Tree(ns) ==> forall|i: int|
            0 <= i < ns.len() ==> valid_node(#[trigger] ns[i]),
    ensures
        decode_object(o.hash, envelope(o.kind, o.size, body_bytes(o.metadata)->Some_0)) == Ok::<ObjectModel, ObjectError>(o),
{
    let body = body_bytes(o.metadata)->Some_0;
    lemma_envelope_round_trip(o.kind, o.size, body);
    if let MetadataModel::Tree(ns) = o.metadata {
        lemma_tree_round_trip(ns);
    }
}

/// The header is not hashed: a blob whose bytes are a tree's encoding has the
/// same hash as that tree.
pub proof fn lemma_hash_excludes_header(ns: Seq<NodeModel>, data: Seq<u8>)
    requires
        tree_bytes(ns) == Some(data),
    ensures
        object_hash(body_bytes(MetadataModel::Blob(data))->Some_0) == object_hash(
            body_bytes(MetadataModel::Tree(ns))->Some_0,
        ),
{
}

/// An object whose hash and size are those of its own encoded body.
pub open spec fn self_consistent(o: ObjectModel) -> bool {
    &&& o.kind == kind_of_body(o.metadata)
    &&& body_bytes(o.metadata) matches Some(b)
    &&& o.hash == object_hash(b)
    &&& o.size == b.len()
}

/// The stored form of an object before compression: `<tag> <size>` and a NUL
/// byte, then the body.
pub open spec fn envelope(kind: ObjectType, size: nat, body: Seq<u8>) -> Seq<u8> {
    kind_tag_bytes(kind) + seq![32u8] + decimal_text(size) + seq![0u8] + body
}

/// Reads a stored header and splits off the body: the kind, the size the header
/// gives, and the bytes after the header's NUL.
pub open spec fn parse_envelope(raw: Seq<u8>) -> Result<(ObjectType, nat, Seq<u8>), ObjectError> {
    let z = first_zero(raw);
    let header = raw.take(z);
    let cs = decode_utf8(header);
    let sp = word_spans(cs);
    if z >= raw.len() || !valid_utf8(header) || sp.len() != 2 {
        Err(ObjectError::MalformedHeader)
    } else {
        match kind_of_tag(cs.subrange(sp[0].0, sp[0].1)) {
            None => Err(ObjectError::UnknownObjectKind),
            Some(k) => match decimal_of(encode_utf8(cs.subrange(sp[1].0, sp[1].1)), usize::MAX as nat) {
                None => Err(ObjectError::MalformedHeader),
                Some(n) => Ok((k, n, raw.skip(z + 1))),
            },
        }
    }
}

/// The object that decompressed stored bytes describe, addressed by `hash`.
pub open spec fn decode_object(hash: Seq<char>, raw: Seq<u8>) -> Result<ObjectModel, ObjectError> {
    match parse_envelope(raw) {
        Err(e) => Err(e),
        Ok((k, n, body)) => match k {
            ObjectType::Blob => Ok(
                ObjectModel {
                    kind: k,
                    hash,
                    size: n,
                    metadata: MetadataModel::Blob(blob_of_body(body)),
                },
            ),
            ObjectType::Tree => match decode_entries(body) {
                Err(e) => Err(e),
                Ok(ns) => Ok(
                    ObjectModel { kind: k, hash, size: n, metadata: MetadataModel::Tree(ns) },
                ),
            },
        },
    }
}

/// Reads the header of decompressed stored bytes: the kind, the size it gives,
/// and the position where the body starts.
fn parse_header(raw: &[u8]) -> (r: Result<(ObjectType, usize, usize), ObjectError>)
    ensures
        match parse_envelope(raw@) {
            Ok((k, n, body)) => r matches Ok((kind, size, start)) && kind == k && size == n
                && start <= raw@.len() && raw@.skip(start as int) == body,
            Err(e) => r == Err::<(ObjectType, usize, usize), ObjectError>(e),
        },
{
    proof { lemma_first_zero_bounds(raw@); }
    let z = find_zero(raw, 0);
    assert(raw@.skip(0) =~= raw@);
    if z >= raw.len() {
        return Err(ObjectError::MalformedHeader);
    }
    let line = vstd::slice::slice_to_vec(&raw[0..z]);
    assert(line@ =~= raw@.take(z as int));
    let text = match String::from_utf8(line) {
        Ok(t) => t,
        Err(_) => {
            return Err(ObjectError::MalformedHeader);
        },
    };
    proof { encode_utf8_decode_utf8(text@); }
    let cs = chars_of(text.as_str());
    let spans = words_of(cs.as_slice());
    if spans.len() != 2 {
        return Err(ObjectError::MalformedHeader);
    }
    let (a0, a1) = spans[0];
    let (b0, b1) = spans[1];
    assert(spans@[0].0 < spans@[0].1 <= cs@.len());
    assert(spans@[1].0 < spans@[1].1 <= cs@.len());
    let tag = string_of(&cs.as_slice()[a0..a1]);
    let kind = match ObjectType::from_str(tag.as_str()) {
        Some(k) => k,
        None => {
            return Err(ObjectError::UnknownObjectKind);
        },
    };
    let size_word = string_of(&cs.as_slice()[b0..b1]);
    let size = match parse_decimal(size_word.as_str().as_bytes(), usize::MAX as u64) {
        Some(n) => n as usize,
        None => {
            return Err(ObjectError::MalformedHeader);
        },
    };
    Ok((kind, size, z + 1))
}

/// Hex text of twenty bytes is a valid entry hash, and it spells those bytes.
pub proof fn lemma_hex_text_raw_hash(d: Seq<u8>)
    requires
        d.len() == 20,
    ensures
        raw_hash(hex_text(d)) == Some(d),
{
    let h = hex_text(d);
    assert forall|i: int| 0 <= i < h.len() implies '\0' <= #[trigger] h[i] <= '\u{7f}' by {
        let v = if i % 2 == 0 { d[i / 2] / 16 } else { d[i / 2] % 16 };
        assert(v < 16);
        assert(h[i] == hex_digit(v));
    }
    vstd::utf8::is_ascii_chars_encode_utf8(h);
    let t = encode_utf8(h);
    assert forall|i: int| 0 <= i < t.len() implies is_hex_byte(#[trigger] t[i]) && hex_nibble(t[i])
        == (if i % 2 == 0 { d[i / 2] / 16 } else { d[i / 2] % 16 }) by {
        assert(t[i] == h[i] as u8);
    }
    assert(hex_decodable(t));
    assert forall|i: int| 0 <= i < 20 implies #[trigger] hex_bytes(t)[i] == d[i] by {
        assert(hex_nibble(t[2 * i]) == d[i] / 16);
        assert(hex_nibble(t[2 * i + 1]) == d[i] % 16);
    }
    assert(hex_bytes(t) =~= d);
}

impl Metadata {
    /// The encoded bytes of this body.
    pub fn as_bytes(&self) -> (r: Result<Vec<u8>, ObjectError>)
        ensures
            match body_bytes(self@) {
                Some(b) => r matches Ok(v) && v@ == b,
                None => r == Err::<Vec<u8>, ObjectError>(ObjectError::InvalidHash),
            },
    {
        match self {
            Metadata::Tree(t) => t.as_bytes(),
            Metadata::Blob(b) => Ok(b.as_bytes()),
        }
    }
}

/// The hash of an encoded body: hex text of its SHA-1 digest.
pub fn hash_body(body: &[u8]) -> (r: String)
    ensures
        r@ == object_hash(body@),
        raw_hash(r@) == Some(sha1_of(body@)),
{
    let digest = sha1_digest(body);
    proof { lemma_hex_text_raw_hash(digest@); }
    hex_encode(digest.as_slice())
}

/// The hash of a text's UTF-8 bytes, as objects are addressed.
pub fn generate_sha1(data: &str) -> (r: String)
    ensures
        r@ == object_hash(encode_utf8(data@)),
{
    hash_body(data.as_bytes())
}

impl Object {
    /// Wraps a body into an object: its size is the length of the encoded body
    /// and its hash is that of the encoded body. Fails with `KindMismatch` where
    /// `kind` is not the kind of `metadata`, and with `InvalidHash` where a tree
    /// entry's hash is not forty hex digits.
    pub fn new(kind: ObjectType, metadata: Metadata) -> (r: Result<Object, ObjectError>)
        ensures
            kind != kind_of_body(metadata@) ==> r == Err::<Object, ObjectError>(
                ObjectError::KindMismatch,
            ),
            kind == kind_of_body(metadata@) ==> match body_bytes(metadata@) {
                Some(b) => r matches Ok(o) && o@ == (ObjectModel {
                    kind,
                    hash: object_hash(b),
                    size: b.len(),
                    metadata: metadata@,
                }),
                None => r == Err::<Object, ObjectError>(ObjectError::InvalidHash),
            },
            r matches Ok(o) ==> raw_hash(o.hash@) is Some,
    {
        let matches_kind = match (&kind, &metadata) {
            (ObjectType::Tree, Metadata::Tree(_)) => true,
            (ObjectType::Blob, Metadata::Blob(_)) => true,
            _ => false,
        };
        if !matches_kind {
            return Err(ObjectError::KindMismatch);
        }
        let body = match metadata.as_bytes() {
            Ok(b) => b,
            Err(e) => {
                return Err(e);
            },
        };
        let hash = hash_body(body.as_slice());
        Ok(Object { kind, hash, size: body.len(), metadata })
    }

    /// Rebuilds an object from the decompressed bytes of its file, addressed by
    /// `hash`. The hash is taken as given, not recomputed, and the size is the one
    /// the header gives.
    pub fn from_stored(hash: &str, raw: &[u8]) -> (r: Result<Object, ObjectError>)
        ensures
            match decode_object(hash@, raw@) {
                Ok(m) => r matches Ok(o) && o@ == m,
                Err(e) => r == Err::<Object, ObjectError>(e),
            },
    {
        let (kind, size, start) = match parse_header(raw) {
            Ok(h) => h,
            Err(e) => {
                return Err(e);
            },
        };
        let body = &raw[start..raw.len()];
        assert(body@ =~= raw@.skip(start as int));
        let metadata = match kind {
            ObjectType::Blob => Metadata::Blob(Blob::from_file(body)),
            ObjectType::Tree => match Tree::parse_tree(body) {
                Ok(t) => Metadata::Tree(t),
                Err(e) => {
                    return Err(e);
                },
            },
        };
        let hash = hash.to_owned();
        Ok(Object { kind, hash, size, metadata })
    }

    /// Rebuilds an object from the contents of its file, `stored`, addressed by
    /// `hash`: the contents are inflated with zlib and then read as by
    /// `from_stored`. Fails with `Io` where the contents do not inflate.
    pub fn load_object_from_hash(hash: &str, stored: &[u8]) -> (r: Result<Object, ObjectError>)
        ensures
            match zlib_inflate(stored@) {
                None => r == Err::<Object, ObjectError>(ObjectError::Io),
                Some(raw) => match decode_object(hash@, raw) {
                    Ok(m) => r matches Ok(o) && o@ == m,
                    Err(e) => r == Err::<Object, ObjectError>(e),
                },
            },
    {
        match zlib_decompress(stored) {
            Some(raw) => Object::from_stored(hash, raw.as_slice()),
            None => Err(ObjectError::Io),
        }
    }

    /// The text of this object's body: a tree's text form, or a blob's contents,
    /// which must then be UTF-8 (`Decode` otherwise).
    pub fn metadata_as_str(&self) -> (r: Result<String, ObjectError>)
        ensures
            match self.metadata@ {
                MetadataModel::Tree(ns) => r matches Ok(s) && s@ == tree_text(ns),
                MetadataModel::Blob(b) => if valid_utf8(b) {
                    r matches Ok(s) && s@ == decode_utf8(b)
                } else {
                    r == Err::<String, ObjectError>(ObjectError::Decode)
                },
            },
    {
        match &self.metadata {
            Metadata::Tree(t) => Ok(t.as_str()),
            Metadata::Blob(b) => b.as_str(),
        }
    }

    /// What `cat-file --pretty-print` shows of this object: a tree's entry names,
    /// one per line, or a blob's contents followed by a newline; `Decode` for a
    /// blob that is not UTF-8.
    pub fn print_object(&self) -> (r: Result<String, ObjectError>)
        ensures
            match self.metadata@ {
                MetadataModel::Tree(ns) => r matches Ok(s) && s@ == name_listing(ns),
                MetadataModel::Blob(b) => if valid_utf8(b) {
                    r matches Ok(s) && s@ == decode_utf8(b).push('\n')
                } else {
                    r == Err::<String, ObjectError>(ObjectError::Decode)
                },
            },
    {
        match &self.metadata {
            Metadata::Tree(t) => Ok(t.print_tree()),
            Metadata::Blob(b) => match b.as_str() {
                Ok(mut s) => {
                    s.push('\n');
                    Ok(s)
                },
                Err(e) => Err(e),
            },
        }
    }

    /// The encoded body of this object.
    pub fn metadata_as_bytes(&self) -> (r: Result<Vec<u8>, ObjectError>)
        ensures
            match body_bytes(self.metadata@) {
                Some(b) => r matches Ok(v) && v@ == b,
                None => r == Err::<Vec<u8>, ObjectError>(ObjectError::InvalidHash),
            },
    {
        self.metadata.as_bytes()
    }

    /// The header and body that are compressed into this object's file.
    pub fn envelope(&self) -> (r: Result<Vec<u8>, ObjectError>)
        ensures
            match body_bytes(self.metadata@) {
                Some(b) => r matches Ok(v) && v@ == envelope(self.kind, self.size as nat, b),
                None => r == Err::<Vec<u8>, ObjectError>(ObjectError::InvalidHash),
            },
    {
        let body = match self.metadata_as_bytes() {
            Ok(b) => b,
            Err(e) => {
                return Err(e);
            },
        };
        let mut out = self.kind.tag_bytes();
        out.push(32u8);
        push_decimal(&mut out, self.size as u64);
        out.push(0u8);
        out.extend_from_slice(body.as_slice());
        assert(out@ =~= envelope(self.kind, self.size as nat, body@));
        Ok(out)
    }

    /// The bytes of this object's file: its envelope compressed with zlib.
    pub fn stored_bytes(&self) -> (r: Result<Vec<u8>, ObjectError>)
        ensures
            match body_bytes(self.metadata@) {
                Some(b) => r matches Ok(v) && v@ == zlib_of(envelope(self.kind, self.size as nat, b)),
                None => r == Err::<Vec<u8>, ObjectError>(ObjectError::InvalidHash),
            },
    {
        let plain = match self.envelope() {
            Ok(p) => p,
            Err(e) => {
                return Err(e);
            },
        };
        match zlib_compress(plain.as_slice()) {
            Some(z) => Ok(z),
            None => vstd::pervasive::unreached(),
        }
    }
}

} // verus!
