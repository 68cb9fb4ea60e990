//! Byte and character helpers shared by the codecs: decimal numbers, whitespace,
//! and building strings.
use vstd::prelude::*;
use vstd::utf8::{encode_scalar, encode_utf8, valid_utf8};

verus! {

/// Relies on `String::push`: the character is appended at the end.
pub assume_specification[ String::push ](s: &mut String, ch: char)
    ensures
        final(s)@ == old(s)@.push(ch),
;

/// Relies on `String::push_str`: the characters of `string` are appended at the end.
pub assume_specification[ String::push_str ](s: &mut String, string: &str)
    ensures
        final(s)@ == old(s)@ + string@,
;

#[verifier::external_type_specification]
#[verifier::external_body]
pub struct ExFromUtf8Error(std::string::FromUtf8Error);

/// Relies on `String::from_utf8`: it accepts exactly the valid UTF-8 byte
/// sequences, and the string it returns holds those bytes.
pub assume_specification[ String::from_utf8 ](vec: Vec<u8>) -> (r: Result<
    String,
    std::string::FromUtf8Error,
>)
    ensures
        r is Ok <==> valid_utf8(vec@),
        r matches Ok(s) ==> encode_utf8(s@) == vec@,
;

/// The value of a sequence of ASCII decimal digits, most significant first.
pub open spec fn digits_value(s: Seq<u8>) -> nat
    decreases s.len(),
{
    if s.len() == 0 {
        0
    } else {
        digits_value(s.drop_last()) * 10 + (s.last() - 48) as nat
    }
}

pub open spec fn is_digit(b: u8) -> bool {
    48 <= b <= 57
}

pub open spec fn all_digits(s: Seq<u8>) -> bool {
    forall|i: int| 0 <= i < s.len() ==> is_digit(#[trigger] s[i])
}

/// A non-empty run of decimal digits whose value is at most `bound`, read as a number.
pub open spec fn digits_of(s: Seq<u8>, bound: nat) -> Option<nat> {
    if s.len() > 0 && all_digits(s) && digits_value(s) <= bound {
        Some(digits_value(s))
    } else {
        None
    }
}

/// An unsigned decimal number no larger than `bound`, as `str::parse` reads one
/// for an unsigned integer type: an optional `+` sign, then a non-empty run of
/// digits.
pub open spec fn decimal_of(s: Seq<u8>, bound: nat) -> Option<nat> {
    if s.len() > 0 && s[0] == 43 {
        digits_of(s.drop_first(), bound)
    } else {
        digits_of(s, bound)
    }
}

/// The shortest decimal spelling of `n` in ASCII digits.
pub open spec fn decimal_text(n: nat) -> Seq<u8>
    decreases n,
{
    if n < 10 {
        seq![(48 + n) as u8]
    } else {
        decimal_text(n / 10).push((48 + n % 10) as u8)
    }
}

proof fn lemma_digits_value_grows(s: Seq<u8>, i: int)
    requires
        0 <= i <= s.len(),
        all_digits(s),
    ensures
        digits_value(s.subrange(0, i)) <= digits_value(s),
    decreases s.len() - i,
{
    if i < s.len() {
        lemma_digits_value_grows(s, i + 1);
        let p = s.subrange(0, i + 1);
        assert(p.drop_last() =~= s.subrange(0, i));
        assert(is_digit(s[i]));
    } else {
        assert(s.subrange(0, i) =~= s);
    }
}

/// Reads `s` as an unsigned decimal number no larger than `bound`, with an
/// optional leading `+`; `None` for an empty run of digits, a byte that is not a
/// digit, or a value over `bound`.
pub fn parse_decimal(s: &[u8], bound: u64) -> (r: Option<u64>)
    ensures
        match decimal_of(s@, bound as nat) {
            Some(v) => r == Some(v as u64),
            None => r is None,
        },
{
    if s.len() > 0 && s[0] == 43 {
        let digits = &s[1..s.len()];
        assert(digits@ =~= s@.drop_first());
        parse_digits(digits, bound)
    } else {
        parse_digits(s, bound)
    }
}

/// Reads `s` as a run of decimal digits whose value is no larger than `bound`.
fn parse_digits(s: &[u8], bound: u64) -> (r: Option<u64>)
    ensures
        match digits_of(s@, bound as nat) {
            Some(v) => r == Some(v as u64),
            None => r is None,
        },
{
    if s.len() == 0 {
        return None;
    }
    let mut acc: u64 = 0;
    let mut i: usize = 0;
    while i < s.len()
        invariant
            0 <= i <= s.len(),
            s.len() > 0,
            acc as nat == digits_value(s@.subrange(0, i as int)),
            acc <= bound,
            forall|j: int| 0 <= j < i ==> is_digit(#[trigger] s@[j]),
        decreases s.len() - i,
    {
        let b = s[i];
        if b < 48 || b > 57 {
            assert(!all_digits(s@));
            return None;
        }
        let d: u64 = (b - 48) as u64;
        assert(s@.subrange(0, i + 1).drop_last() =~= s@.subrange(0, i as int));
        if d > bound || acc > (bound - d) / 10 {
            assert(acc * 10 + d > bound) by (nonlinear_arith)
                requires d > bound || acc > (bound - d) / 10, acc >= 0;
            proof {
                assert forall|j: int| 0 <= j < i + 1 implies is_digit(#[trigger] s@[j]) by {}
                if all_digits(s@) {
                    lemma_digits_value_grows(s@, i + 1);
                }
            }
            return None;
        }
        assert(acc * 10 + d <= bound) by (nonlinear_arith)
            requires acc <= (bound - d) / 10, d <= bound;
        acc = acc * 10 + d;
        i = i + 1;
    }
    assert(s@.subrange(0, i as int) =~= s@);
    Some(acc)
}

/// Appends the decimal spelling of `n` to `out`.
pub fn push_decimal(out: &mut Vec<u8>, n: u64)
    ensures
        final(out)@ == old(out)@ + decimal_text(n as nat),
    decreases n,
{
    if n >= 10 {
        push_decimal(out, n / 10);
    }
    out.push((48 + n % 10) as u8);
    assert(final(out)@ =~= old(out)@ + decimal_text(n as nat));
}

/// Characters with the Unicode `White_Space` property, the ones that
/// `char::is_whitespace` accepts.
pub open spec fn is_space(c: char) -> bool {
    let u = c as u32;
    (9 <= u <= 13) || u == 32 || u == 0x85 || u == 0xA0 || u == 0x1680 || (0x2000 <= u <= 0x200A)
        || u == 0x2028 || u == 0x2029 || u == 0x202F || u == 0x205F || u == 0x3000
}

pub fn is_space_char(c: char) -> (r: bool)
    ensures
        r == is_space(c),
{
    let u = c as u32;
    (9 <= u && u <= 13) || u == 32 || u == 0x85 || u == 0xA0 || u == 0x1680 || (0x2000 <= u && u
        <= 0x200A) || u == 0x2028 || u == 0x2029 || u == 0x202F || u == 0x205F || u == 0x3000
}

/// The characters of `s`, one element each.
pub fn chars_of(s: &str) -> (r: Vec<char>)
    ensures
        r@ == s@,
{
    let mut v: Vec<char> = Vec::new();
    for c in it: s.chars()
        invariant
            v@ == it.seq().take(it.index() as int),
    {
        v.push(c);
    }
    assert(v@ =~= s@);
    v
}

/// A string holding the given characters.
pub fn string_of(cs: &[char]) -> (r: String)
    ensures
        r@ == cs@,
{
    let mut r = String::new();
    let mut i: usize = 0;
    while i < cs.len()
        invariant
            0 <= i <= cs@.len(),
            r@ == cs@.take(i as int),
        decreases cs@.len() - i,
    {
        r.push(cs[i]);
        assert(cs@.take(i + 1) =~= cs@.take(i as int).push(cs@[i as int]));
        i = i + 1;
    }
    assert(cs@.take(i as int) =~= cs@);
    r
}

/// The start and end of each maximal run of non-whitespace characters, in order:
/// the words that `str::split_whitespace` yields.
pub open spec fn word_spans(s: Seq<char>) -> Seq<(int, int)>
    decreases s.len(),
{
    if s.len() == 0 {
        Seq::empty()
    } else {
        let w = word_spans(s.drop_last());
        if is_space(s.last()) {
            w
        } else if s.len() >= 2 && !is_space(s[s.len() - 2]) {
            w.update(w.len() - 1, (w.last().0, s.len() as int))
        } else {
            w.push((s.len() - 1, s.len() as int))
        }
    }
}

pub open spec fn spans_view(v: Seq<(usize, usize)>) -> Seq<(int, int)> {
    v.map_values(|p: (usize, usize)| (p.0 as int, p.1 as int))
}

pub open spec fn spans_within(p: (usize, usize), n: int) -> bool {
    p.0 < p.1 <= n
}

/// The whitespace-separated words of `s`, as character positions.
pub fn words_of(s: &[char]) -> (r: Vec<(usize, usize)>)
    ensures
        spans_view(r@) == word_spans(s@),
        forall|k: int| 0 <= k < r@.len() ==> #[trigger] r@[k].0 < r@[k].1 <= s@.len(),
{
    let mut spans: Vec<(usize, usize)> = Vec::new();
    let mut i: usize = 0;
    while i < s.len()
        invariant
            0 <= i <= s@.len(),
            spans_view(spans@) == word_spans(s@.take(i as int)),
            forall|k: int| 0 <= k < spans@.len() ==> spans_within(#[trigger] spans@[k], i as int),
            i > 0 && !is_space(s@[i - 1]) ==> spans@.len() > 0 && spans@.last().1 == i,
        decreases s@.len() - i,
    {
        let c = s[i];
        let ghost t = s@.take(i + 1);
        assert(t.drop_last() =~= s@.take(i as int));
        assert(t.last() == c);
        if is_space_char(c) {
            assert forall|k: int| 0 <= k < spans@.len() implies spans_within(#[trigger] spans@[k], i + 1) by {
                assert(spans_within(spans@[k], i as int));
            }
        } else if i >= 1 && !is_space_char(s[i - 1]) {
            assert(t[t.len() - 2] == s@[i - 1]);
            let last = spans.len() - 1;
            let start = spans[last].0;
            let ghost before = spans@;
            assert(before[last as int].0 < before[last as int].1 <= i);
            spans.set(last, (start, i + 1));
            assert forall|k: int| 0 <= k < spans@.len() implies spans_within(#[trigger] spans@[k], i + 1) by {
                if k != last {
                    assert(spans@[k] == before[k]);
                    assert(spans_within(before[k], i as int));
                }
            }
            assert(spans_view(spans@) =~= word_spans(t));
        } else {
            let ghost before = spans@;
            spans.push((i, i + 1));
            assert forall|k: int| 0 <= k < spans@.len() implies spans_within(#[trigger] spans@[k], i + 1) by {
                if k < before.len() {
                    assert(spans@[k] == before[k]);
                    assert(spans_within(before[k], i as int));
                }
            }
            assert(spans_view(spans@) =~= word_spans(t));
        }
        i = i + 1;
    }
    assert(s@.take(i as int) =~= s@);
    spans
}

/// The position of the first zero byte of `b`, or its length where it holds none.
pub open spec fn first_zero(b: Seq<u8>) -> int
    decreases b.len(),
{
    if b.len() == 0 {
        0
    } else if b[0] == 0 {
        0
    } else {
        1 + first_zero(b.drop_first())
    }
}

pub proof fn lemma_first_zero_bounds(b: Seq<u8>)
    ensures
        0 <= first_zero(b) <= b.len(),
        first_zero(b) < b.len() ==> b[first_zero(b)] == 0,
    decreases b.len(),
{
    if b.len() > 0 && b[0] != 0 {
        lemma_first_zero_bounds(b.drop_first());
    }
}

/// The position of the first zero byte at or after `from`, or the length of `b`.
pub fn find_zero(b: &[u8], from: usize) -> (r: usize)
    requires
        from <= b@.len(),
    ensures
        r == from + first_zero(b@.skip(from as int)),
        from <= r <= b@.len(),
{
    let mut i = from;
    while i < b.len()
        invariant
            from <= i <= b@.len(),
            first_zero(b@.skip(from as int)) == (i - from) + first_zero(b@.skip(i as int)),
        decreases b@.len() - i,
    {
        if b[i] == 0 {
            return i;
        }
        assert(b@.skip(i as int).drop_first() =~= b@.skip(i + 1));
        i = i + 1;
    }
    i
}

/// UTF-8 encoding distributes over concatenation.
pub proof fn lemma_encode_utf8_concat(a: Seq<char>, b: Seq<char>)
    ensures
        encode_utf8(a + b) == encode_utf8(a) + encode_utf8(b),
    decreases a.len(),
{
    if a.len() > 0 {
        lemma_encode_utf8_concat(a.drop_first(), b);
        assert((a + b).drop_first() =~= a.drop_first() + b);
        assert((a + b)[0] == a[0]);
        assert(encode_utf8(a + b) =~= encode_scalar(a[0] as u32) + (encode_utf8(a.drop_first()) + encode_utf8(b)));
    } else {
        assert(a + b =~= b);
    }
}

proof fn lemma_scalar_nonzero(c: char)
    requires
        c != '\0',
    ensures
        forall|i: int| 0 <= i < encode_scalar(c as u32).len() ==> #[trigger] encode_scalar(c as u32)[i] != 0,
{
    let v = c as u32;
    assert(v != 0);
    assert(v <= 0x7F && v != 0 ==> (v & 0x7F) as u8 != 0) by (bit_vector);
    assert(forall|x: u32| #![auto] (0xC0u8 | ((x >> 6) & 0x1F) as u8) != 0) by (bit_vector);
    assert(forall|x: u32| #![auto] (0xE0u8 | ((x >> 12) & 0x0F) as u8) != 0) by (bit_vector);
    assert(forall|x: u32| #![auto] (0xF0u8 | ((x >> 18) & 0x7) as u8) != 0) by (bit_vector);
    assert(forall|x: u32| #![auto] (0x80u8 | (x & 0x3F) as u8) != 0) by (bit_vector);
    assert(forall|x: u32| #![auto] (0x80u8 | ((x >> 6) & 0x3F) as u8) != 0) by (bit_vector);
    assert(forall|x: u32| #![auto] (0x80u8 | ((x >> 12) & 0x3F) as u8) != 0) by (bit_vector);
}

/// The UTF-8 encoding of text without NUL characters holds no zero byte.
pub proof fn lemma_encode_utf8_nonzero(s: Seq<char>)
    requires
        forall|i: int| 0 <= i < s.len() ==> #[trigger] s[i] != '\0',
    ensures
        forall|i: int| 0 <= i < encode_utf8(s).len() ==> #[trigger] encode_utf8(s)[i] != 0,
    decreases s.len(),
{
    if s.len() > 0 {
        lemma_scalar_nonzero(s[0]);
        let t = s.drop_first();
        assert forall|i: int| 0 <= i < t.len() implies #[trigger] t[i] != '\0' by {
            assert(t[i] == s[i + 1]);
        }
        lemma_encode_utf8_nonzero(t);
        let head = encode_scalar(s[0] as u32);
        assert forall|i: int| 0 <= i < encode_utf8(s).len() implies #[trigger] encode_utf8(s)[i] != 0 by {
            if i < head.len() {
                assert(encode_utf8(s)[i] == head[i]);
            } else {
                assert(encode_utf8(s)[i] == encode_utf8(t)[i - head.len()]);
            }
        }
    }
}

/// Before a run of non-zero bytes, the first zero is found after the run.
pub proof fn lemma_first_zero_after(a: Seq<u8>, b: Seq<u8>)
    requires
        forall|i: int| 0 <= i < a.len() ==> #[trigger] a[i] != 0,
    ensures
        first_zero(a + b) == a.len() + first_zero(b),
    decreases a.len(),
{
    if a.len() == 0 {
        assert(a + b =~= b);
    } else {
        assert((a + b)[0] == a[0]);
        assert((a + b).drop_first() =~= a.drop_first() + b);
        let t = a.drop_first();
        assert forall|i: int| 0 <= i < t.len() implies #[trigger] t[i] != 0 by {
            assert(t[i] == a[i + 1]);
        }
        lemma_first_zero_after(t, b);
    }
}

/// A run of non-space characters that follows a space, or starts the text,
/// adds one word.
pub proof fn lemma_spans_word(s: Seq<char>, i: int, j: int)
    requires
        0 <= i < j <= s.len(),
        forall|k: int| i <= k < j ==> !is_space(#[trigger] s[k]),
        i == 0 || is_space(s[i - 1]),
    ensures
        word_spans(s.take(j)) == word_spans(s.take(i)).push((i, j)),
    decreases j - i,
{
    let t = s.take(j);
    assert(t.last() == s[j - 1]);
    if j == i + 1 {
        assert(t.drop_last() =~= s.take(i));
        if i > 0 {
            assert(t[t.len() - 2] == s[i - 1]);
        }
    } else {
        lemma_spans_word(s, i, j - 1);
        assert(t.drop_last() =~= s.take(j - 1));
        assert(t[t.len() - 2] == s[j - 2]);
    }
}

/// Two non-empty words joined by one space are the words of the text.
pub proof fn lemma_two_words(a: Seq<char>, b: Seq<char>)
    requires
        a.len() > 0,
        b.len() > 0,
        forall|k: int| 0 <= k < a.len() ==> !is_space(#[trigger] a[k]),
        forall|k: int| 0 <= k < b.len() ==> !is_space(#[trigger] b[k]),
    ensures
        word_spans(a + seq![' '] + b) == seq![(0int, a.len() as int), ((a.len() + 1) as int, (a.len() + 1 + b.len()) as int)],
{
    let s = a + seq![' '] + b;
    let n = a.len() as int;
    assert forall|k: int| 0 <= k < n implies !is_space(#[trigger] s[k]) by {
        assert(s[k] == a[k]);
    }
    assert forall|k: int| n + 1 <= k < s.len() implies !is_space(#[trigger] s[k]) by {
        assert(s[k] == b[k - n - 1]);
    }
    assert(s.take(0) =~= Seq::<char>::empty());
    lemma_spans_word(s, 0, n);
    let t = s.take(n + 1);
    assert(t.drop_last() =~= s.take(n));
    assert(t.last() == ' ');
    assert(is_space(' '));
    assert(word_spans(t) == word_spans(s.take(n)));
    assert(s[n] == ' ');
    lemma_spans_word(s, n + 1, s.len() as int);
    assert(s.take(s.len() as int) =~= s);
    assert(word_spans(s) =~= seq![(0int, a.len() as int), ((a.len() + 1) as int, (a.len() + 1 + b.len()) as int)]);
}

/// Appending a digit to a run of digits.
pub proof fn lemma_digits_push(s: Seq<u8>, d: u8)
    ensures
        digits_value(s.push(d)) == digits_value(s) * 10 + (d - 48) as nat,
{
    assert(s.push(d).drop_last() =~= s);
}

} // verus!
