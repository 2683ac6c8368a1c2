//! Object keys: decoding a key taken from a request path, the rules a key must
//! meet, and the mapping of a key to a file path under the storage root.
//!
//! Paths are handled as text with `/` as separator: a path's components are
//! its `/`-separated segments, and a `..` segment is a parent-directory step.

use vstd::prelude::*;
use vstd::utf8::*;

use crate::error::{invalid_key, is_invalid_key, ErrorResponse};
use crate::text::{bytes_of, chars_of};

verus! {

/* ---------------- percent decoding ---------------- */

/// The value of an ASCII hexadecimal digit (`0-9`, `a-f`, `A-F`).
pub open spec fn hex_digit_value(b: u8) -> Option<u8> {
    if 0x30 <= b <= 0x39 {
        Some((b - 0x30) as u8)
    } else if 0x41 <= b <= 0x46 {
        Some((b - 0x41 + 10) as u8)
    } else if 0x61 <= b <= 0x66 {
        Some((b - 0x61 + 10) as u8)
    } else {
        None
    }
}

/// Percent-decoding of bytes: every `%` followed by two hexadecimal digits
/// stands for the byte they spell; every other byte stands for itself.
pub open spec fn percent_decoded_bytes(b: Seq<u8>) -> Seq<u8>
    decreases b.len(),
{
    if b.len() == 0 {
        seq![]
    } else if b[0] == 0x25 && b.len() >= 3 && hex_digit_value(b[1]) is Some && hex_digit_value(
        b[2],
    ) is Some {
        seq![(hex_digit_value(b[1])->0 * 16 + hex_digit_value(b[2])->0) as u8]
            + percent_decoded_bytes(b.skip(3))
    } else {
        seq![b[0]] + percent_decoded_bytes(b.drop_first())
    }
}

/// What `String::from_utf8_lossy` makes of `bytes`: the text they encode, with
/// each invalid sequence replaced by U+FFFD.
pub uninterp spec fn utf8_lossy(bytes: Seq<u8>) -> Seq<char>;

/// Percent-decodes the bytes of `raw` with `percent_encoding::percent_decode_str`.
/// Trusted: the bytes collected from the decoder are `percent_decoded_bytes` of
/// the UTF-8 bytes of `raw`, as the crate documents ("any sequence of `%`
/// followed by two hexadecimal digits is decoded").
#[verifier::external_body]
fn percent_decode_bytes(raw: &str) -> (r: Vec<u8>)
    ensures
        r@ == percent_decoded_bytes(bytes_of(raw@)),
{
    percent_encoding::percent_decode_str(raw).collect()
}

/// Decodes bytes as UTF-8 with `String::from_utf8_lossy`.
/// Trusted: the result is `utf8_lossy(bytes)`, and when the bytes are valid
/// UTF-8 it is the text they encode, as std documents.
#[verifier::external_body]
fn decode_utf8_lossy(bytes: &[u8]) -> (r: String)
    ensures
        r@ == utf8_lossy(bytes@),
        valid_utf8(bytes@) ==> r@ == decode_utf8(bytes@),
{
    String::from_utf8_lossy(bytes).into_owned()
}

/// Bytes without `%` decode to themselves.
proof fn lemma_percent_free_bytes_decode_to_themselves(b: Seq<u8>)
    requires
        forall|i: int| 0 <= i < b.len() ==> b[i] != 0x25,
    ensures
        percent_decoded_bytes(b) == b,
    decreases b.len(),
{
    if b.len() > 0 {
        lemma_percent_free_bytes_decode_to_themselves(b.drop_first());
        assert(b =~= seq![b[0]] + b.drop_first());
    }
}

/// An ASCII byte occurs in the UTF-8 encoding of a scalar only when the scalar is that byte.
proof fn lemma_encode_scalar_avoids_ascii(x: u32, a: u8)
    requires
        is_scalar(x),
        a < 0x80,
        x != a as u32,
    ensures
        forall|j: int| 0 <= j < encode_scalar(x).len() ==> encode_scalar(x)[j] != a,
{
    if has_width_1_encoding(x) {
        assert((x & 0x7F) as u8 != a) by (bit_vector)
            requires
                x <= 0x7F,
                x != a as u32,
                a < 0x80,
        ;
    } else {
        assert(forall|y: u32| #![auto] (0xC0u8 | ((y >> 6) & 0x1F) as u8) != a) by (bit_vector)
            requires
                a < 0x80,
        ;
        assert(forall|y: u32| #![auto] (0xE0u8 | ((y >> 12) & 0x0F) as u8) != a) by (bit_vector)
            requires
                a < 0x80,
        ;
        assert(forall|y: u32| #![auto] (0xF0u8 | ((y >> 18) & 0x7) as u8) != a) by (bit_vector)
            requires
                a < 0x80,
        ;
        assert(forall|y: u32| #![auto] (0x80u8 | (y & 0x3F) as u8) != a) by (bit_vector)
            requires
                a < 0x80,
        ;
        assert(forall|y: u32| #![auto] (0x80u8 | ((y >> 6) & 0x3F) as u8) != a) by (bit_vector)
            requires
                a < 0x80,
        ;
        assert(forall|y: u32| #![auto] (0x80u8 | ((y >> 12) & 0x3F) as u8) != a) by (bit_vector)
            requires
                a < 0x80,
        ;
    }
}

/// An ASCII character absent from a text is absent, as a byte, from its UTF-8 encoding.
pub proof fn lemma_encode_utf8_avoids_ascii(s: Seq<char>, c: char)
    requires
        (c as u32) < 0x80,
        forall|i: int| 0 <= i < s.len() ==> s[i] != c,
    ensures
        forall|j: int| 0 <= j < bytes_of(s).len() ==> bytes_of(s)[j] != (c as u32) as u8,
    decreases s.len(),
{
    if s.len() > 0 {
        let x = s[0] as u32;
        char_is_scalar(s[0]);
        char_u32_cast(s[0], x);
        lemma_encode_scalar_avoids_ascii(x, (c as u32) as u8);
        lemma_encode_utf8_avoids_ascii(s.drop_first(), c);
        let e = encode_scalar(x);
        let rest = encode_utf8(s.drop_first());
        assert(bytes_of(s) == e + rest);
        assert forall|j: int| 0 <= j < bytes_of(s).len() implies bytes_of(s)[j] != (
        c as u32) as u8 by {
            if j < e.len() {
                assert(bytes_of(s)[j] == e[j]);
                assert(e[j] != (c as u32) as u8);
            } else {
                assert(bytes_of(s)[j] == rest[j - e.len()]);
                assert(rest == bytes_of(s.drop_first()));
                assert(rest[j - e.len()] != (c as u32) as u8);
            }
        }
    }
}

/// The key that a raw (percent-encoded) key from a request path stands for.
pub open spec fn decoded_key(raw: Seq<char>) -> Seq<char> {
    utf8_lossy(percent_decoded_bytes(bytes_of(raw)))
}

/* ---------------- key rules ---------------- */

/// `k` holds two consecutive dots.
pub open spec fn contains_dot_dot(k: Seq<char>) -> bool {
    exists|i: int| 0 <= i && i + 1 < k.len() && #[trigger] k[i] == '.' && k[i + 1] == '.'
}

/// A key is valid when it is not empty, does not start with `/` and holds no `..`.
pub open spec fn is_valid_key(k: Seq<char>) -> bool {
    &&& k.len() > 0
    &&& k[0] != '/'
    &&& !contains_dot_dot(k)
}

/// The key rules are exactly three: a key is valid when it is not empty,
/// does not start with `/`, and holds no two consecutive dots; every other
/// key (dot-files such as `.env` among them) is valid.
pub proof fn lemma_key_rules(k: Seq<char>)
    ensures
        is_valid_key(k) <==> {
            &&& k.len() > 0
            &&& k[0] != '/'
            &&& forall|i: int| 0 <= i && i + 1 < k.len() ==> !(#[trigger] k[i] == '.' && k[i + 1] == '.')
        },
{
}

/// Checks an already decoded key against the key rules.
pub fn validate_key(decoded: String) -> (r: Result<String, ErrorResponse>)
    ensures
        r is Ok <==> is_valid_key(decoded@),
        r matches Ok(k) ==> k@ == decoded@,
        r matches Err(e) ==> is_invalid_key(e),
{
    let v = chars_of(decoded.as_str());
    let n = v.len();
    if n == 0 {
        return Err(invalid_key());
    }
    if v[0] == '/' {
        return Err(invalid_key());
    }
    let mut i: usize = 0;
    while i < n - 1
        invariant
            n == v@.len(),
            n >= 1,
            v@ == decoded@,
            forall|j: int| 0 <= j < i && j + 1 < n ==> !(#[trigger] v@[j] == '.' && v@[j + 1] == '.'),
        decreases n - i,
    {
        if v[i] == '.' && v[i + 1] == '.' {
            return Err(invalid_key());
        }
        i = i + 1;
    }
    assert(!contains_dot_dot(decoded@)) by {
        if contains_dot_dot(decoded@) {
            let j = choose|j: int|
                0 <= j && j + 1 < decoded@.len() && #[trigger] decoded@[j] == '.' && decoded@[j + 1]
                    == '.';
            assert(j < i);
        }
    }
    Ok(decoded)
}

/// Decodes a raw key from a request path and checks it against the key rules.
pub fn normalize_key(raw: &str) -> (r: Result<String, ErrorResponse>)
    ensures
        r is Ok <==> is_valid_key(decoded_key(raw@)),
        r matches Ok(k) ==> k@ == decoded_key(raw@),
        r matches Err(e) ==> is_invalid_key(e),
        (forall|i: int| 0 <= i < raw@.len() ==> raw@[i] != '%') ==> (r is Ok <==> is_valid_key(
            raw@)) && (r matches Ok(k) ==> k@ == raw@),
        valid_utf8(percent_decoded_bytes(bytes_of(raw@))) ==> {
            let text = decode_utf8(percent_decoded_bytes(bytes_of(raw@)));
            &&& (r is Ok <==> is_valid_key(text))
            &&& (r matches Ok(k) ==> k@ == text)
        },
{
    let bytes = percent_decode_bytes(raw);
    let decoded = decode_utf8_lossy(bytes.as_slice());
    proof {
        if forall|i: int| 0 <= i < raw@.len() ==> raw@[i] != '%' {
            lemma_encode_utf8_avoids_ascii(raw@, '%');
            lemma_percent_free_bytes_decode_to_themselves(bytes_of(raw@));
            encode_utf8_valid_utf8(raw@);
            encode_utf8_decode_utf8(raw@);
            assert(decoded@ == raw@);
        }
    }
    validate_key(decoded)
}

/* ---------------- key to path ---------------- */

/// Joins `p` onto `root` as `Path::join` does for Unix paths, where only a
/// leading `/` makes a path absolute: an absolute `p` replaces `root`;
/// otherwise a separator is put between them unless `root` is empty or
/// already ends with one.
pub open spec fn join_path(root: Seq<char>, p: Seq<char>) -> Seq<char> {
    if p.len() > 0 && p[0] == '/' {
        p
    } else if root.len() == 0 {
        p
    } else if root.last() == '/' {
        root + p
    } else {
        root + seq!['/'] + p
    }
}

/// The path has a `..` component: a `/`-separated segment that is exactly `..`.
pub open spec fn has_parent_dir_component(p: Seq<char>) -> bool {
    exists|i: int|
        0 <= i && i + 2 <= p.len() && #[trigger] p[i] == '.' && p[i + 1] == '.' && (i == 0 || p[i
            - 1] == '/') && (i + 2 == p.len() || p[i + 2] == '/')
}

pub(crate) fn join_paths(root: &str, key: &str) -> (r: String)
    ensures
        r@ == join_path(root@, key@),
{
    let kn = key.unicode_len();
    if kn > 0 && key.get_char(0) == '/' {
        return String::from_str(key);
    }
    let rn = root.unicode_len();
    if rn == 0 {
        return String::from_str(key);
    }
    let mut s = String::from_str(root);
    if root.get_char(rn - 1) != '/' {
        s.append("/");
        proof {
            reveal_strlit("/");
        }
    }
    s.append(key);
    s
}

/// Whether a path has a `..` component.
fn parent_dir_component(p: &str) -> (r: bool)
    ensures
        r == has_parent_dir_component(p@),
{
    let v = chars_of(p);
    let n = v.len();
    if n < 2 {
        return false;
    }
    let mut i: usize = 0;
    while i < n - 1
        invariant
            n == v@.len(),
            n >= 2,
            v@ == p@,
            forall|j: int|
                0 <= j < i && j + 2 <= n ==> !(#[trigger] v@[j] == '.' && v@[j + 1] == '.' && (j
                    == 0 || v@[j - 1] == '/') && (j + 2 == n || v@[j + 2] == '/')),
        decreases n - i,
    {
        if v[i] == '.' && v[i + 1] == '.' && (i == 0 || v[i - 1] == '/') && (i + 2 == n || v[i
            + 2] == '/') {
            return true;
        }
        i = i + 1;
    }
    proof {
        no_parent_dir_component(p@, i as int);
    }
    false
}

proof fn no_parent_dir_component(p: Seq<char>, i: int)
    requires
        p.len() >= 2,
        i >= p.len() - 1,
        forall|j: int|
            0 <= j < i && j + 2 <= p.len() ==> !(#[trigger] p[j] == '.' && p[j + 1] == '.' && (j
                == 0 || p[j - 1] == '/') && (j + 2 == p.len() || p[j + 2] == '/')),
    ensures
        !has_parent_dir_component(p),
{
}

/// A key that can be placed under a storage root: it does not start with
/// `/` and has no `..` component.
pub open spec fn key_path_allowed(key: Seq<char>) -> bool {
    &&& !(key.len() > 0 && key[0] == '/')
    &&& !has_parent_dir_component(key)
}

/// The part of a path that comes before a relative key joined onto `root`:
/// the root, with a separator unless it is empty or already ends with one.
pub open spec fn root_prefix(root: Seq<char>) -> Seq<char> {
    if root.len() == 0 || root.last() == '/' {
        root
    } else {
        root.push('/')
    }
}

/// A key that does not start with `/` is joined below the root.
proof fn lemma_relative_join(root: Seq<char>, key: Seq<char>)
    requires
        !(key.len() > 0 && key[0] == '/'),
    ensures
        join_path(root, key) == root_prefix(root) + key,
{
    if root.len() == 0 {
        assert(join_path(root, key) =~= root_prefix(root) + key);
    } else if root.last() == '/' {
        assert(join_path(root, key) =~= root_prefix(root) + key);
    } else {
        assert(join_path(root, key) =~= root_prefix(root) + key);
    }
}

/// Maps a key to its file path under `root`. A key starting with `/` or
/// with a `..` component would leave the root and is refused (400
/// `InvalidKey`); the root's own components are not the key's concern.
pub fn key_to_path(root: &str, key: &str) -> (r: Result<String, ErrorResponse>)
    ensures
        r is Ok <==> key_path_allowed(key@),
        r matches Ok(p) ==> p@ == root_prefix(root@) + key@,
        r matches Err(e) ==> is_invalid_key(e),
{
    if key.unicode_len() > 0 && key.get_char(0) == '/' {
        return Err(invalid_key());
    }
    if parent_dir_component(key) {
        Err(invalid_key())
    } else {
        proof {
            lemma_relative_join(root@, key@);
        }
        Ok(join_paths(root, key))
    }
}

/// The key of a file, given its path relative to the storage root.
pub fn path_to_key(rel: &str) -> (r: String)
    ensures
        r@ == rel@,
{
    String::from_str(rel)
}

/// A valid key never leaves the storage root: it does not start with `/` and
/// has no `..` component, so `key_to_path` accepts every key that
/// `normalize_key` returns, and its path is the root's prefix followed by
/// exactly the key. Stripping that prefix
/// gives back the key, so a stored object is listed under the key it was
/// stored with (`path_to_key` keeps the text).
pub proof fn lemma_valid_key_stays_under_root(root: Seq<char>, key: Seq<char>)
    requires
        is_valid_key(key),
    ensures
        key_path_allowed(key),
        (root_prefix(root) + key).take(root.len() as int) == root,
        (root_prefix(root) + key).skip(root_prefix(root).len() as int) == key,
        (root_prefix(root) + key).len() > root.len(),
{
    if has_parent_dir_component(key) {
        let i = choose|i: int|
            0 <= i && i + 2 <= key.len() && #[trigger] key[i] == '.' && key[i + 1] == '.' && (i
                == 0 || key[i - 1] == '/') && (i + 2 == key.len() || key[i + 2] == '/');
        assert(contains_dot_dot(key));
    }
    let p = root_prefix(root) + key;
    assert(p.take(root.len() as int) =~= root);
    assert(p.skip(root_prefix(root).len() as int) =~= key);
}

} // verus!
