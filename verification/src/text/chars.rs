//! Character classes and UTF-8 widths that the text analysis and the typing
//! engine decide by.
use vstd::prelude::*;
use vstd::utf8::*;

verus! {

/// Whether `c` has the Unicode `Alphabetic` or `Numeric` property, the way
/// `char::is_alphanumeric` decides it.
pub uninterp spec fn alphanumeric(c: char) -> bool;

/// The ASCII letters and digits.
pub open spec fn ascii_alphanumeric(c: char) -> bool {
    let v = c as u32;
    (0x30 <= v <= 0x39) || (0x41 <= v <= 0x5A) || (0x61 <= v <= 0x7A)
}

/// Whether `c` has the Unicode `White_Space` property, which
/// `char::is_whitespace` decides: tab through carriage return, space, next
/// line, no-break space, the ogham space mark, the spaces U+2000 to U+200A,
/// the line and paragraph separators, the narrow no-break space, the medium
/// mathematical space and the ideographic space.
pub open spec fn whitespace(c: char) -> bool {
    let v = c as u32;
    ||| 0x09 <= v <= 0x0D
    ||| v == 0x20
    ||| v == 0x85
    ||| v == 0xA0
    ||| v == 0x1680
    ||| 0x2000 <= v <= 0x200A
    ||| v == 0x2028
    ||| v == 0x2029
    ||| v == 0x202F
    ||| v == 0x205F
    ||| v == 0x3000
}

/// The ASCII punctuation characters: the printable ASCII characters that are
/// neither letters, digits nor space.
pub open spec fn ascii_punctuation(c: char) -> bool {
    let v = c as u32;
    (0x21 <= v <= 0x2F) || (0x3A <= v <= 0x40) || (0x5B <= v <= 0x60) || (0x7B <= v <= 0x7E)
}

/// The number of bytes of the UTF-8 encoding of `c`.
pub open spec fn utf8_width(c: char) -> nat {
    let v = c as u32;
    if v < 0x80 {
        1
    } else if v < 0x800 {
        2
    } else if v < 0x10000 {
        3
    } else {
        4
    }
}

/// The number of bytes of the UTF-8 encoding of `s`.
pub open spec fn byte_len(s: Seq<char>) -> nat {
    encode_utf8(s).len()
}

/// `c` lowered the way `char::to_ascii_lowercase` lowers it: only `A`..`Z` change.
pub open spec fn ascii_lower(c: char) -> char {
    let v = c as u32;
    if 0x41 <= v <= 0x5A {
        (v + 32) as char
    } else {
        c
    }
}

/// Calls `char::is_alphanumeric` of std. The contract names its result
/// `alphanumeric(c)`; the Unicode tables behind it are not written out. Of an
/// ASCII character it states what std decides: the ASCII letters and digits.
#[verifier::external_body]
pub fn is_alphanumeric(c: char) -> (r: bool)
    ensures
        r == alphanumeric(c),
        (c as u32) < 0x80 ==> (r == ascii_alphanumeric(c)),
{
    c.is_alphanumeric()
}

/// Whether `c` is white space, as `char::is_whitespace` decides.
pub fn is_whitespace(c: char) -> (r: bool)
    ensures
        r == whitespace(c),
{
    let v = c as u32;
    (0x09 <= v && v <= 0x0D) || v == 0x20 || v == 0x85 || v == 0xA0 || v == 0x1680 || (0x2000
        <= v && v <= 0x200A) || v == 0x2028 || v == 0x2029 || v == 0x202F || v == 0x205F || v
        == 0x3000
}

/// Whether `c` is ASCII punctuation, as `char::is_ascii_punctuation` decides.
pub fn is_ascii_punctuation(c: char) -> (r: bool)
    ensures
        r == ascii_punctuation(c),
{
    let v = c as u32;
    (0x21 <= v && v <= 0x2F) || (0x3A <= v && v <= 0x40) || (0x5B <= v && v <= 0x60) || (0x7B
        <= v && v <= 0x7E)
}

/// The number of bytes of the UTF-8 encoding of `c`, as `char::len_utf8` gives it.
pub fn len_utf8(c: char) -> (n: usize)
    ensures
        n == utf8_width(c),
{
    let v = c as u32;
    if v < 0x80 {
        1
    } else if v < 0x800 {
        2
    } else if v < 0x10000 {
        3
    } else {
        4
    }
}

/// `c` lowered as `char::to_ascii_lowercase` lowers it.
pub fn to_ascii_lowercase(c: char) -> (r: char)
    ensures
        r == ascii_lower(c),
{
    let v = c as u32;
    if 0x41 <= v && v <= 0x5A {
        ((v + 32) as u8) as char
    } else {
        c
    }
}

/// The encoding of one character has `utf8_width` bytes.
pub proof fn lemma_encode_scalar_len(c: char)
    ensures
        encode_scalar(c as u32).len() == utf8_width(c),
{
    char_is_scalar(c);
}

/// Encoding distributes over concatenation.
pub proof fn lemma_encode_concat(a: Seq<char>, b: Seq<char>)
    ensures
        encode_utf8(a + b) == encode_utf8(a) + encode_utf8(b),
    decreases a.len(),
{
    if a.len() == 0 {
        assert(a + b =~= b);
        assert(encode_utf8(a) =~= Seq::<u8>::empty());
        assert(encode_utf8(a) + encode_utf8(b) =~= encode_utf8(b));
    } else {
        assert((a + b).drop_first() =~= a.drop_first() + b);
        assert((a + b)[0] == a[0]);
        lemma_encode_concat(a.drop_first(), b);
        assert(encode_utf8(a + b) =~= encode_scalar(a[0] as u32) + (encode_utf8(a.drop_first())
            + encode_utf8(b)));
    }
}

/// Appending a character adds its width to the byte length.
pub proof fn lemma_byte_len_push(s: Seq<char>, c: char)
    ensures
        byte_len(s.push(c)) == byte_len(s) + utf8_width(c),
{
    let one = seq![c];
    assert(s.push(c) =~= s + one);
    lemma_encode_concat(s, one);
    assert(one.drop_first() =~= Seq::<char>::empty());
    assert(encode_utf8(one) =~= encode_scalar(c as u32) + encode_utf8(one.drop_first()));
    lemma_encode_scalar_len(c);
}

/// The byte length of a prefix grows with the prefix, and is at least its
/// number of characters.
pub proof fn lemma_byte_len_prefix(s: Seq<char>, i: int, j: int)
    requires
        0 <= i <= j <= s.len(),
    ensures
        byte_len(s.take(i)) + (j - i) <= byte_len(s.take(j)),
        byte_len(s.take(j)) <= byte_len(s),
    decreases j - i,
{
    if i < j {
        lemma_byte_len_prefix(s, i, j - 1);
        assert(s.take(j) =~= s.take(j - 1).push(s[j - 1]));
        lemma_byte_len_push(s.take(j - 1), s[j - 1]);
    }
    assert(s =~= s.take(j) + s.skip(j));
    lemma_encode_concat(s.take(j), s.skip(j));
}

/// A text has no more characters than bytes.
pub proof fn lemma_chars_le_bytes(s: Seq<char>)
    ensures
        s.len() <= byte_len(s),
        byte_len(s.take(0)) == 0,
{
    assert(s.take(0) =~= Seq::<char>::empty());
    assert(encode_utf8(s.take(0)) =~= Seq::<u8>::empty());
    lemma_byte_len_prefix(s, 0, s.len() as int);
    assert(s.take(s.len() as int) =~= s);
}

/// The characters of `s`, in order.
pub fn chars_of(s: &str) -> (v: Vec<char>)
    ensures
        v@ == s@,
{
    let ghost t = s@;
    let mut it = s.chars();
    let mut v: Vec<char> = Vec::new();
    proof {
        assert(t.skip(0) =~= t);
    }
    loop
        invariant_except_break
            v@.len() <= t.len(),
            vstd::std_specs::iter::IteratorSpec::remaining(&it) == t.skip(v@.len() as int),
            v@ == t.take(v@.len() as int),
        ensures
            v@ == t,
        decreases t.len() - v@.len(),
    {
        let ghost i = v@.len() as int;
        match it.next() {
            None => {
                proof {
                    assert(t.take(i) =~= t);
                }
                break ;
            },
            Some(c) => {
                proof {
                    assert(t.skip(i).drop_first() =~= t.skip(i + 1));
                    assert(c == t[i]);
                    assert(t.take(i + 1) =~= t.take(i).push(c));
                }
                v.push(c);
            },
        }
    }
    v
}

/// Different prefixes of a text have different byte lengths.
pub proof fn lemma_byte_len_prefix_injective(s: Seq<char>, i: int, j: int)
    requires
        0 <= i <= s.len(),
        0 <= j <= s.len(),
        byte_len(s.take(i)) == byte_len(s.take(j)),
    ensures
        i == j,
{
    if i < j {
        lemma_byte_len_prefix(s, i, j);
    } else if j < i {
        lemma_byte_len_prefix(s, j, i);
    }
}

} // verus!
