//! Text helpers shared by the library: byte-wise order of strings (the order
//! in which Rust orders `String`s), prefix and suffix tests on bytes, string
//! equality, and conversion of a string into its characters.

use vstd::prelude::*;
use vstd::utf8::*;

verus! {

/// The UTF-8 bytes of a character sequence.
pub open spec fn bytes_of(s: Seq<char>) -> Seq<u8> {
    encode_utf8(s)
}

/// The UTF-8 bytes of joined texts are the joined bytes.
pub proof fn lemma_bytes_of_concat(a: Seq<char>, b: Seq<char>)
    ensures
        bytes_of(a + b) == bytes_of(a) + bytes_of(b),
    decreases a.len(),
{
    if a.len() == 0 {
        assert(a + b =~= b);
        assert(bytes_of(a) =~= Seq::<u8>::empty());
        assert(bytes_of(a) + bytes_of(b) =~= bytes_of(b));
    } else {
        assert((a + b).drop_first() =~= a.drop_first() + b);
        assert((a + b)[0] == a[0]);
        lemma_bytes_of_concat(a.drop_first(), b);
        assert(bytes_of(a + b) =~= encode_scalar(a[0] as u32) + (bytes_of(a.drop_first())
            + bytes_of(b)));
    }
}

/// The byte of `/`.
pub proof fn lemma_bytes_of_slash()
    ensures
        bytes_of(seq!['/']) == seq![0x2Fu8],
{
    let s = seq!['/'];
    assert(s.drop_first() =~= Seq::<char>::empty());
    assert(('/' as u32) == 0x2F);
    assert((0x2Fu32 & 0x7F) as u8 == 0x2Fu8) by (bit_vector);
    assert(encode_utf8(s.drop_first()) =~= Seq::<u8>::empty());
    assert(has_width_1_encoding(s[0] as u32));
    assert(encode_scalar(s[0] as u32) =~= seq![0x2Fu8]);
    assert(bytes_of(s) =~= seq![0x2Fu8]);
}

/// `a` is lexicographically less than or equal to `b`.
pub open spec fn bytes_le(a: Seq<u8>, b: Seq<u8>) -> bool
    decreases a.len(),
{
    if a.len() == 0 {
        true
    } else if b.len() == 0 {
        false
    } else if a[0] < b[0] {
        true
    } else if a[0] > b[0] {
        false
    } else {
        bytes_le(a.drop_first(), b.drop_first())
    }
}

/// Strict lexicographic order on byte sequences.
pub open spec fn bytes_lt(a: Seq<u8>, b: Seq<u8>) -> bool {
    bytes_le(a, b) && a != b
}

pub proof fn lemma_bytes_le_reflexive(a: Seq<u8>)
    ensures
        bytes_le(a, a),
    decreases a.len(),
{
    if a.len() > 0 {
        lemma_bytes_le_reflexive(a.drop_first());
    }
}

pub proof fn lemma_bytes_le_total(a: Seq<u8>, b: Seq<u8>)
    ensures
        bytes_le(a, b) || bytes_le(b, a),
    decreases a.len(),
{
    if a.len() > 0 && b.len() > 0 && a[0] == b[0] {
        lemma_bytes_le_total(a.drop_first(), b.drop_first());
    }
}

pub proof fn lemma_bytes_le_transitive(a: Seq<u8>, b: Seq<u8>, c: Seq<u8>)
    requires
        bytes_le(a, b),
        bytes_le(b, c),
    ensures
        bytes_le(a, c),
    decreases a.len(),
{
    if a.len() > 0 && b.len() > 0 && c.len() > 0 && a[0] == b[0] && b[0] == c[0] {
        lemma_bytes_le_transitive(a.drop_first(), b.drop_first(), c.drop_first());
    }
}

pub proof fn lemma_bytes_le_antisymmetric(a: Seq<u8>, b: Seq<u8>)
    requires
        bytes_le(a, b),
        bytes_le(b, a),
    ensures
        a == b,
    decreases a.len(),
{
    if a.len() > 0 && b.len() > 0 {
        lemma_bytes_le_antisymmetric(a.drop_first(), b.drop_first());
        assert(a =~= seq![a[0]] + a.drop_first());
        assert(b =~= seq![b[0]] + b.drop_first());
    }
}

/// The key order is byte-wise lexicographic, ascending: a sequence comes no
/// later than every sequence it is a prefix of, and otherwise the first
/// position where two sequences differ decides, the smaller byte first.
pub proof fn lemma_bytes_le_lexicographic(a: Seq<u8>, b: Seq<u8>, i: int)
    ensures
        a.len() <= b.len() && b.subrange(0, a.len() as int) == a ==> bytes_le(a, b),
        0 <= i < a.len() && i < b.len() && a.subrange(0, i) == b.subrange(0, i) && a[i] != b[i]
            ==> (bytes_le(a, b) <==> a[i] < b[i]),
    decreases a.len(),
{
    if a.len() > 0 && b.len() > 0 {
        if a.len() <= b.len() && b.subrange(0, a.len() as int) == a {
            assert(b[0] == a[0]);
            assert(b.drop_first().subrange(0, a.drop_first().len() as int) =~= a.drop_first());
        }
        if 0 < i < a.len() && i < b.len() && a.subrange(0, i) == b.subrange(0, i) && a[i] != b[i] {
            assert(a[0] == a.subrange(0, i)[0]);
            assert(b[0] == b.subrange(0, i)[0]);
            assert(a.drop_first().subrange(0, i - 1) =~= a.subrange(0, i).drop_first());
            assert(b.drop_first().subrange(0, i - 1) =~= b.subrange(0, i).drop_first());
        }
        lemma_bytes_le_lexicographic(a.drop_first(), b.drop_first(), i - 1);
    }
}

/// Skipping a common prefix does not change the order.
proof fn lemma_bytes_le_skip(a: Seq<u8>, b: Seq<u8>, i: int)
    requires
        0 <= i <= a.len(),
        i <= b.len(),
        a.take(i) == b.take(i),
    ensures
        bytes_le(a, b) == bytes_le(a.skip(i), b.skip(i)),
    decreases i,
{
    if i > 0 {
        assert(a[0] == a.take(i)[0]);
        assert(b[0] == b.take(i)[0]);
        assert(a.drop_first().take(i - 1) =~= a.take(i).drop_first());
        assert(b.drop_first().take(i - 1) =~= b.take(i).drop_first());
        lemma_bytes_le_skip(a.drop_first(), b.drop_first(), i - 1);
        assert(a.drop_first().skip(i - 1) =~= a.skip(i));
        assert(b.drop_first().skip(i - 1) =~= b.skip(i));
    } else {
        assert(a.skip(0) =~= a);
        assert(b.skip(0) =~= b);
    }
}

/// Compares two byte slices lexicographically: `a <= b`.
pub fn slice_le(a: &[u8], b: &[u8]) -> (r: bool)
    ensures
        r == bytes_le(a@, b@),
{
    let n = a.len();
    let m = b.len();
    let mut i: usize = 0;
    while i < n && i < m
        invariant
            i <= n,
            i <= m,
            n == a@.len(),
            m == b@.len(),
            a@.take(i as int) == b@.take(i as int),
        decreases n - i,
    {
        if a[i] != b[i] {
            proof {
                lemma_bytes_le_skip(a@, b@, i as int);
                assert(a@.skip(i as int)[0] == a@[i as int]);
                assert(b@.skip(i as int)[0] == b@[i as int]);
            }
            return a[i] < b[i];
        }
        assert(a@.take(i + 1) =~= a@.take(i as int).push(a@[i as int]));
        assert(b@.take(i + 1) =~= b@.take(i as int).push(b@[i as int]));
        i = i + 1;
    }
    proof {
        lemma_bytes_le_skip(a@, b@, i as int);
    }
    i == n
}

/// Compares two strings by their UTF-8 bytes: `a <= b`, the order of `String`.
pub fn str_le(a: &str, b: &str) -> (r: bool)
    ensures
        r == bytes_le(bytes_of(a@), bytes_of(b@)),
{
    slice_le(a.as_bytes(), b.as_bytes())
}

/// `p` is a prefix of `s`.
pub open spec fn is_prefix<T>(p: Seq<T>, s: Seq<T>) -> bool {
    p.len() <= s.len() && s.take(p.len() as int) == p
}

/// `p` is a suffix of `s`.
pub open spec fn is_suffix<T>(p: Seq<T>, s: Seq<T>) -> bool {
    p.len() <= s.len() && s.skip(s.len() - p.len()) == p
}

/// Whether `p` is a prefix of `s`, on bytes.
pub fn slice_starts_with(s: &[u8], p: &[u8]) -> (r: bool)
    ensures
        r == is_prefix(p@, s@),
{
    if p.len() > s.len() {
        return false;
    }
    let mut i: usize = 0;
    while i < p.len()
        invariant
            p@.len() <= s@.len(),
            i <= p@.len(),
            forall|j: int| 0 <= j < i ==> s@[j] == p@[j],
        decreases p.len() - i,
    {
        if s[i] != p[i] {
            assert(s@.take(p@.len() as int)[i as int] != p@[i as int]);
            return false;
        }
        i = i + 1;
    }
    assert(s@.take(p@.len() as int) =~= p@);
    true
}

/// Whether `p` is a suffix of `s`, on bytes.
pub fn slice_ends_with(s: &[u8], p: &[u8]) -> (r: bool)
    ensures
        r == is_suffix(p@, s@),
{
    if p.len() > s.len() {
        return false;
    }
    let off = s.len() - p.len();
    let mut i: usize = 0;
    while i < p.len()
        invariant
            p@.len() <= s@.len(),
            off == s@.len() - p@.len(),
            off + p@.len() == s@.len(),
            s@.len() <= usize::MAX,
            i <= p@.len(),
            forall|j: int| 0 <= j < i ==> s@[off + j] == p@[j],
        decreases p.len() - i,
    {
        if s[off + i] != p[i] {
            assert(s@.skip(off as int)[i as int] != p@[i as int]);
            return false;
        }
        i = i + 1;
    }
    assert(s@.skip(off as int) =~= p@);
    true
}

/// Whether two byte slices are equal.
pub fn slice_eq(a: &[u8], b: &[u8]) -> (r: bool)
    ensures
        r == (a@ == b@),
{
    if a.len() != b.len() {
        return false;
    }
    let r = slice_starts_with(a, b);
    assert(a@.take(b@.len() as int) =~= a@);
    r
}

/// Whether two strings hold the same characters.
pub fn str_eq(a: &str, b: &str) -> (r: bool)
    ensures
        r == (a@ == b@),
{
    let r = slice_eq(a.as_bytes(), b.as_bytes());
    proof {
        encode_utf8_decode_utf8(a@);
        encode_utf8_decode_utf8(b@);
    }
    r
}

/// The characters of a string, in order.
pub fn chars_of(s: &str) -> (v: Vec<char>)
    ensures
        v@ == s@,
{
    let mut v: Vec<char> = Vec::new();
    for c in it: s.chars()
        invariant
            v@ == it.seq().take(it.index() as int),
    {
        v.push(c);
    }
    v
}

/// The character of a decimal digit.
pub open spec fn digit_char(d: nat) -> char {
    if d == 0 {
        '0'
    } else if d == 1 {
        '1'
    } else if d == 2 {
        '2'
    } else if d == 3 {
        '3'
    } else if d == 4 {
        '4'
    } else if d == 5 {
        '5'
    } else if d == 6 {
        '6'
    } else if d == 7 {
        '7'
    } else if d == 8 {
        '8'
    } else {
        '9'
    }
}

/// The decimal notation of `n`, without leading zeros.
pub open spec fn decimal(n: nat) -> Seq<char>
    decreases n,
{
    if n < 10 {
        seq![digit_char(n)]
    } else {
        decimal(n / 10).push(digit_char(n % 10))
    }
}

/// Decimal notation holds only the digits `0` to `9`.
pub proof fn lemma_decimal_digits(n: nat)
    ensures
        forall|i: int| 0 <= i < decimal(n).len() ==> '0' <= #[trigger] decimal(n)[i] <= '9',
    decreases n,
{
    let d = digit_char(n % 10);
    assert('0' <= d <= '9');
    if n >= 10 {
        lemma_decimal_digits(n / 10);
        let p = decimal(n / 10);
        assert forall|i: int| 0 <= i < decimal(n).len() implies '0' <= #[trigger] decimal(n)[i]
            <= '9' by {
            if i < p.len() {
                assert(decimal(n)[i] == p[i]);
            }
        }
    } else {
        assert(n % 10 == n);
    }
}

fn digit_str(d: u64) -> (r: &'static str)
    requires
        d < 10,
    ensures
        r@ == seq![digit_char(d as nat)],
{
    proof {
        reveal_strlit("0");
        reveal_strlit("1");
        reveal_strlit("2");
        reveal_strlit("3");
        reveal_strlit("4");
        reveal_strlit("5");
        reveal_strlit("6");
        reveal_strlit("7");
        reveal_strlit("8");
        reveal_strlit("9");
    }
    if d == 0 {
        "0"
    } else if d == 1 {
        "1"
    } else if d == 2 {
        "2"
    } else if d == 3 {
        "3"
    } else if d == 4 {
        "4"
    } else if d == 5 {
        "5"
    } else if d == 6 {
        "6"
    } else if d == 7 {
        "7"
    } else if d == 8 {
        "8"
    } else {
        "9"
    }
}

/// Writes `n` in decimal.
pub fn u64_to_decimal(n: u64) -> (r: String)
    ensures
        r@ == decimal(n as nat),
    decreases n,
{
    if n < 10 {
        String::from_str(digit_str(n))
    } else {
        let mut s = u64_to_decimal(n / 10);
        s.append(digit_str(n % 10));
        s
    }
}

/// A character with the Unicode `White_Space` property, as `char::is_whitespace` holds.
pub open spec fn is_unicode_whitespace(c: char) -> bool {
    let u = c as u32;
    ||| 0x09 <= u <= 0x0D
    ||| u == 0x20
    ||| u == 0x85
    ||| u == 0xA0
    ||| u == 0x1680
    ||| 0x2000 <= u <= 0x200A
    ||| u == 0x2028
    ||| u == 0x2029
    ||| u == 0x202F
    ||| u == 0x205F
    ||| u == 0x3000
}

/// `s` without its leading whitespace.
pub open spec fn trim_start_whitespace(s: Seq<char>) -> Seq<char>
    decreases s.len(),
{
    if s.len() > 0 && is_unicode_whitespace(s[0]) {
        trim_start_whitespace(s.drop_first())
    } else {
        s
    }
}

/// `s` without its trailing whitespace.
pub open spec fn trim_end_whitespace(s: Seq<char>) -> Seq<char>
    decreases s.len(),
{
    if s.len() > 0 && is_unicode_whitespace(s.last()) {
        trim_end_whitespace(s.drop_last())
    } else {
        s
    }
}

/// `s` without leading and trailing whitespace.
pub open spec fn trimmed(s: Seq<char>) -> Seq<char> {
    trim_end_whitespace(trim_start_whitespace(s))
}

/// Removes leading and trailing whitespace with `str::trim`. Trusted: the
/// result is `trimmed(s)`, as std documents (whitespace is what has the
/// Unicode `White_Space` property).
#[verifier::external_body]
pub(crate) fn trim_whitespace(s: &str) -> (r: String)
    ensures
        r@ == trimmed(s@),
{
    s.trim().to_string()
}

} // verus!
