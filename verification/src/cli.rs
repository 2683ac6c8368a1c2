//! The command-line client's decisions: how a key is written into a request
//! URL, the URL of a listing, the length announced by a download, the
//! media type of an upload, and the text it prints.

use vstd::prelude::*;
use vstd::utf8::*;

use crate::key::{join_path, join_paths, percent_decoded_bytes};
use crate::list::ListItem;
use crate::object::{guess_mime, guessed_mime};
use crate::text::{
    bytes_of, chars_of, decimal, lemma_bytes_of_concat, lemma_bytes_of_slash, trim_whitespace, trimmed,
    u64_to_decimal,
};

verus! {

/* ---------------- URL encoding ---------------- */

/// Bytes that URL encoding leaves as they are: ASCII letters, digits, `-`, `.`, `_`, `~`.
pub open spec fn is_unreserved(b: u8) -> bool {
    ||| 0x30 <= b <= 0x39
    ||| 0x41 <= b <= 0x5A
    ||| 0x61 <= b <= 0x7A
    ||| b == 0x2D
    ||| b == 0x2E
    ||| b == 0x5F
    ||| b == 0x7E
}

/// The upper-case hexadecimal digit of `d < 16`, as a byte.
pub open spec fn hex_upper_byte(d: u8) -> u8 {
    if d < 10 {
        (0x30 + d) as u8
    } else {
        (0x41 + d - 10) as u8
    }
}

/// The URL encoding of one byte: itself when unreserved, else `%` and two
/// upper-case hexadecimal digits.
pub open spec fn url_encode_byte(b: u8) -> Seq<u8> {
    if is_unreserved(b) {
        seq![b]
    } else {
        seq![0x25u8, hex_upper_byte(b / 16), hex_upper_byte(b % 16)]
    }
}

/// The URL encoding of a byte sequence, byte by byte.
pub open spec fn url_encoded_bytes(b: Seq<u8>) -> Seq<u8>
    decreases b.len(),
{
    if b.len() == 0 {
        seq![]
    } else {
        url_encode_byte(b[0]) + url_encoded_bytes(b.drop_first())
    }
}

/// URL-encodes a text with `urlencoding::encode`. Trusted: the bytes of the
/// result are `url_encoded_bytes` of the text's bytes, as the crate documents
/// ("percent-encodes every byte except alphanumerics and `-`, `_`, `.`, `~`")
/// and its source shows (upper-case digits).
#[verifier::external_body]
fn url_encode(s: &str) -> (r: String)
    ensures
        bytes_of(r@) == url_encoded_bytes(bytes_of(s@)),
{
    urlencoding::encode(s).into_owned()
}

/// Percent-decoding undoes the URL encoding of a byte.
proof fn lemma_decode_encoded_byte(b: u8, rest: Seq<u8>)
    ensures
        percent_decoded_bytes(url_encode_byte(b) + rest) == seq![b] + percent_decoded_bytes(rest),
{
    let e = url_encode_byte(b) + rest;
    if is_unreserved(b) {
        assert(e[0] == b);
        assert(e.drop_first() =~= rest);
    } else {
        let hi = b / 16;
        let lo = b % 16;
        assert(e[0] == 0x25u8 && e[1] == hex_upper_byte(hi) && e[2] == hex_upper_byte(lo));
        assert(e.skip(3) =~= rest);
        assert(hi * 16 + lo == b);
    }
}

/// Percent-decoding undoes URL encoding.
pub proof fn lemma_decode_encoded(b: Seq<u8>, rest: Seq<u8>)
    ensures
        percent_decoded_bytes(url_encoded_bytes(b) + rest) == b + percent_decoded_bytes(rest),
    decreases b.len(),
{
    if b.len() == 0 {
        assert(url_encoded_bytes(b) + rest =~= rest);
        assert(b + percent_decoded_bytes(rest) =~= percent_decoded_bytes(rest));
    } else {
        lemma_decode_encoded(b.drop_first(), rest);
        lemma_decode_encoded_byte(b[0], url_encoded_bytes(b.drop_first()) + rest);
        assert(url_encoded_bytes(b) + rest =~= url_encode_byte(b[0]) + (url_encoded_bytes(
            b.drop_first(),
        ) + rest));
        assert(seq![b[0]] + (b.drop_first() + percent_decoded_bytes(rest)) =~= b
            + percent_decoded_bytes(rest));
    }
}

/* ---------------- keys in URLs ---------------- */

/// `s` without its leading `/` characters.
pub open spec fn trim_leading_slashes(s: Seq<char>) -> Seq<char>
    decreases s.len(),
{
    if s.len() > 0 && s[0] == '/' {
        trim_leading_slashes(s.drop_first())
    } else {
        s
    }
}

/// The `/`-separated segments of `s`, as `str::split('/')` gives them (there
/// is always at least one, possibly empty).
pub open spec fn split_slash(s: Seq<char>) -> Seq<Seq<char>>
    decreases s.len(),
{
    if s.len() == 0 {
        seq![Seq::<char>::empty()]
    } else if s.last() == '/' {
        split_slash(s.drop_last()).push(Seq::<char>::empty())
    } else {
        let r = split_slash(s.drop_last());
        r.update(r.len() - 1, r.last().push(s.last()))
    }
}

/// Byte sequences joined with `/` bytes between them.
pub open spec fn join_bytes(parts: Seq<Seq<u8>>) -> Seq<u8>
    decreases parts.len(),
{
    if parts.len() == 0 {
        seq![]
    } else if parts.len() == 1 {
        parts[0]
    } else {
        join_bytes(parts.drop_last()) + seq![0x2Fu8] + parts.last()
    }
}

/// The URL encodings of the bytes of each segment.
pub open spec fn encoded_segments(segs: Seq<Seq<char>>) -> Seq<Seq<u8>> {
    Seq::new(segs.len(), |i: int| url_encoded_bytes(bytes_of(segs[i])))
}

/// The bytes of each segment.
pub open spec fn segment_bytes(segs: Seq<Seq<char>>) -> Seq<Seq<u8>> {
    Seq::new(segs.len(), |i: int| bytes_of(segs[i]))
}

/// How a key is written into a URL path: leading `/` removed, then each
/// `/`-separated segment URL-encoded, the segments joined by `/`.
pub open spec fn encoded_key_bytes(key: Seq<char>) -> Seq<u8> {
    join_bytes(encoded_segments(split_slash(trim_leading_slashes(key))))
}

proof fn lemma_split_slash_nonempty(s: Seq<char>)
    ensures
        split_slash(s).len() >= 1,
    decreases s.len(),
{
    if s.len() > 0 {
        lemma_split_slash_nonempty(s.drop_last());
    }
}

/// Writes a key into a URL path: leading `/` removed, each `/`-separated
/// segment URL-encoded, segments joined by `/`.
pub fn encode_key(key: &str) -> (r: String)
    ensures
        bytes_of(r@) == encoded_key_bytes(key@),
{
    let v = chars_of(key);
    let n = v.len();
    let mut start: usize = 0;
    assert(v@.subrange(0, n as int) =~= v@);
    while start < n && v[start] == '/'
        invariant
            n == v@.len(),
            v@ == key@,
            start <= n,
            trim_leading_slashes(key@) == trim_leading_slashes(v@.subrange(start as int, n as int)),
        decreases n - start,
    {
        assert(v@.subrange(start as int, n as int).drop_first() =~= v@.subrange(
            start + 1,
            n as int,
        ));
        start = start + 1;
    }
    let ghost trimmed = v@.subrange(start as int, n as int);
    assert(trim_leading_slashes(trimmed) == trimmed);
    let mut result = String::new();
    let mut seg_start: usize = start;
    let mut i: usize = start;
    let ghost mut done: Seq<Seq<char>> = seq![];
    let mut first = true;
    proof {
        assert(v@.subrange(start as int, start as int) =~= Seq::<char>::empty());
        assert(seq![Seq::<char>::empty()] =~= done.push(v@.subrange(seg_start as int, i as int)));
    }
    while i < n
        invariant
            n == v@.len(),
            v@ == key@,
            start <= seg_start <= i <= n,
            trimmed == v@.subrange(start as int, n as int),
            split_slash(v@.subrange(start as int, i as int)) == done.push(
                v@.subrange(seg_start as int, i as int),
            ),
            bytes_of(result@) == join_bytes(encoded_segments(done)),
            first == (done.len() == 0),
        decreases n - i,
    {
        let ghost before = v@.subrange(start as int, i as int);
        let ghost now = v@.subrange(start as int, i + 1);
        assert(now.drop_last() =~= before);
        assert(now.last() == v@[i as int]);
        if v[i] == '/' {
            let seg = key.substring_char(seg_start, i);
            let enc = url_encode(seg);
            let ghost old_result = result@;
            proof {
                assert(encoded_segments(done.push(seg@)) =~= encoded_segments(done).push(
                    url_encoded_bytes(bytes_of(seg@)),
                ));
                assert(encoded_segments(done.push(seg@)).drop_last() =~= encoded_segments(done));
            }
            if !first {
                result.append("/");
                proof {
                    reveal_strlit("/");
                    assert("/"@ =~= seq!['/']);
                    assert(result@ =~= old_result + seq!['/']);
                    lemma_bytes_of_concat(old_result, seq!['/']);
                    lemma_bytes_of_slash();
                }
            }
            let ghost mid = result@;
            result.append(enc.as_str());
            proof {
                lemma_bytes_of_concat(mid, enc@);
                if first {
                    assert(bytes_of(mid) =~= Seq::<u8>::empty());
                    assert(bytes_of(result@) =~= bytes_of(enc@));
                } else {
                    assert(bytes_of(mid) == join_bytes(encoded_segments(done)) + seq![0x2Fu8]);
                }
                done = done.push(seg@);
                assert(v@.subrange((i + 1) as int, (i + 1) as int) =~= Seq::<char>::empty());
            }
            seg_start = i + 1;
            first = false;
        } else {
            proof {
                assert(v@.subrange(seg_start as int, i + 1) =~= v@.subrange(
                    seg_start as int,
                    i as int,
                ).push(v@[i as int]));
                assert(done.push(v@.subrange(seg_start as int, i as int)).update(
                    done.len() as int,
                    v@.subrange(seg_start as int, i + 1),
                ) =~= done.push(v@.subrange(seg_start as int, i + 1)));
            }
        }
        i = i + 1;
    }
    let seg = key.substring_char(seg_start, n);
    let enc = url_encode(seg);
    let ghost old_result = result@;
    proof {
        assert(v@.subrange(start as int, n as int) == trimmed);
        assert(encoded_segments(done.push(seg@)) =~= encoded_segments(done).push(
            url_encoded_bytes(bytes_of(seg@)),
        ));
        assert(encoded_segments(done.push(seg@)).drop_last() =~= encoded_segments(done));
    }
    if !first {
        result.append("/");
        proof {
            reveal_strlit("/");
            assert("/"@ =~= seq!['/']);
            assert(result@ =~= old_result + seq!['/']);
            lemma_bytes_of_concat(old_result, seq!['/']);
            lemma_bytes_of_slash();
        }
    }
    let ghost mid = result@;
    result.append(enc.as_str());
    proof {
        lemma_bytes_of_concat(mid, enc@);
        if first {
            assert(bytes_of(mid) =~= Seq::<u8>::empty());
            assert(bytes_of(result@) =~= bytes_of(enc@));
        } else {
            assert(bytes_of(mid) == join_bytes(encoded_segments(done)) + seq![0x2Fu8]);
        }
        assert(split_slash(trimmed) == done.push(seg@));
    }
    result
}

/* ---------------- the key round trip ---------------- */

/// The URL encodings of byte sequences.
pub open spec fn encode_all(parts: Seq<Seq<u8>>) -> Seq<Seq<u8>> {
    Seq::new(parts.len(), |i: int| url_encoded_bytes(parts[i]))
}

proof fn lemma_decode_slash(x: Seq<u8>)
    ensures
        percent_decoded_bytes(seq![0x2Fu8] + x) == seq![0x2Fu8] + percent_decoded_bytes(x),
{
    let e = seq![0x2Fu8] + x;
    assert(e[0] == 0x2Fu8);
    assert(e.drop_first() =~= x);
}

proof fn lemma_decode_joined(parts: Seq<Seq<u8>>, rest: Seq<u8>)
    ensures
        percent_decoded_bytes(join_bytes(encode_all(parts)) + rest) == join_bytes(parts)
            + percent_decoded_bytes(rest),
    decreases parts.len(),
{
    let e = encode_all(parts);
    if parts.len() == 0 {
        assert(join_bytes(e) + rest =~= rest);
        assert(join_bytes(parts) + percent_decoded_bytes(rest) =~= percent_decoded_bytes(rest));
    } else if parts.len() == 1 {
        lemma_decode_encoded(parts[0], rest);
    } else {
        let dl = parts.drop_last();
        let last = parts.last();
        assert(e.drop_last() =~= encode_all(dl));
        assert(e.last() == url_encoded_bytes(last));
        let tail = seq![0x2Fu8] + url_encoded_bytes(last) + rest;
        lemma_decode_joined(dl, tail);
        assert(join_bytes(e) + rest =~= join_bytes(encode_all(dl)) + tail);
        lemma_decode_slash(url_encoded_bytes(last) + rest);
        assert(tail =~= seq![0x2Fu8] + (url_encoded_bytes(last) + rest));
        lemma_decode_encoded(last, rest);
        assert(join_bytes(dl) + (seq![0x2Fu8] + (last + percent_decoded_bytes(rest)))
            =~= join_bytes(parts) + percent_decoded_bytes(rest));
    }
}

proof fn lemma_split_join_bytes(t: Seq<char>)
    ensures
        join_bytes(segment_bytes(split_slash(t))) == bytes_of(t),
    decreases t.len(),
{
    let r = split_slash(t);
    if t.len() == 0 {
        assert(segment_bytes(r) =~= seq![bytes_of(Seq::<char>::empty())]);
    } else {
        let u = t.drop_last();
        let c = t.last();
        lemma_split_join_bytes(u);
        lemma_split_slash_nonempty(u);
        let ru = split_slash(u);
        assert(u.push(c) =~= u + seq![c]);
        assert(t =~= u + seq![c]);
        lemma_bytes_of_concat(u, seq![c]);
        if c == '/' {
            lemma_bytes_of_slash();
            assert(segment_bytes(r).drop_last() =~= segment_bytes(ru));
            assert(segment_bytes(r).last() == bytes_of(Seq::<char>::empty()));
            assert(bytes_of(Seq::<char>::empty()) =~= Seq::<u8>::empty());
            assert(join_bytes(segment_bytes(r)) =~= join_bytes(segment_bytes(ru)) + seq![0x2Fu8]);
        } else {
            let k = ru.len() - 1;
            let lastseg = ru.last().push(c);
            assert(lastseg =~= ru.last() + seq![c]);
            lemma_bytes_of_concat(ru.last(), seq![c]);
            assert(r == ru.update(k, lastseg));
            if ru.len() == 1 {
                assert(segment_bytes(r)[0] == bytes_of(lastseg));
                assert(join_bytes(segment_bytes(ru)) == bytes_of(ru[0]));
            } else {
                assert(segment_bytes(r).drop_last() =~= segment_bytes(ru).drop_last());
                assert(segment_bytes(r).last() == bytes_of(lastseg));
            }
            assert(join_bytes(segment_bytes(r)) =~= join_bytes(segment_bytes(ru)) + bytes_of(
                seq![c],
            ));
        }
    }
}

/// The client and the server agree on keys: the bytes that `encode_key`
/// writes into the URL percent-decode to valid UTF-8 that spells the key less
/// its leading `/` characters, so `normalize_key` on them (see its contract)
/// gives back that key.
pub proof fn lemma_encoded_key_normalizes(key: Seq<char>)
    ensures
        valid_utf8(percent_decoded_bytes(encoded_key_bytes(key))),
        decode_utf8(percent_decoded_bytes(encoded_key_bytes(key))) == trim_leading_slashes(key),
{
    lemma_encoded_key_decodes(key);
    encode_utf8_valid_utf8(trim_leading_slashes(key));
    encode_utf8_decode_utf8(trim_leading_slashes(key));
}

/// The client and the server agree on keys: percent-decoding the bytes that
/// `encode_key` writes into the URL gives back the bytes of the key, less its
/// leading `/` characters.
pub proof fn lemma_encoded_key_decodes(key: Seq<char>)
    ensures
        percent_decoded_bytes(encoded_key_bytes(key)) == bytes_of(trim_leading_slashes(key)),
{
    let t = trim_leading_slashes(key);
    let segs = split_slash(t);
    assert(encoded_segments(segs) =~= encode_all(segment_bytes(segs)));
    lemma_decode_joined(segment_bytes(segs), Seq::<u8>::empty());
    assert(encoded_key_bytes(key) + Seq::<u8>::empty() =~= encoded_key_bytes(key));
    assert(percent_decoded_bytes(Seq::<u8>::empty()) =~= Seq::<u8>::empty());
    lemma_split_join_bytes(t);
    assert(join_bytes(segment_bytes(segs)) + Seq::<u8>::empty() =~= join_bytes(segment_bytes(segs)));
}

/* ---------------- request URLs ---------------- */

/// `s` without its trailing `/` characters.
pub open spec fn trim_trailing_slashes(s: Seq<char>) -> Seq<char>
    decreases s.len(),
{
    if s.len() > 0 && s.last() == '/' {
        trim_trailing_slashes(s.drop_last())
    } else {
        s
    }
}

/// The endpoint as requests are built on it: without trailing `/`.
pub fn endpoint_base(endpoint: &str) -> (r: String)
    ensures
        r@ == trim_trailing_slashes(endpoint@),
{
    let v = chars_of(endpoint);
    let mut end: usize = v.len();
    assert(v@.subrange(0, end as int) =~= v@);
    while end > 0 && v[end - 1] == '/'
        invariant
            end <= v@.len(),
            v@ == endpoint@,
            trim_trailing_slashes(endpoint@) == trim_trailing_slashes(v@.subrange(0, end as int)),
        decreases end,
    {
        assert(v@.subrange(0, end as int).drop_last() =~= v@.subrange(0, end - 1));
        end = end - 1;
    }
    String::from_str(endpoint.substring_char(0, end))
}

/* ---------------- client settings ---------------- */

/// The client configuration file (`sobj.json`); every entry is optional.
#[derive(Debug)]
pub struct ClientConfig {
    pub endpoint: Option<String>,
    pub token: Option<String>,
    pub timeout_secs: Option<u64>,
    pub tls_ca_cert_pem_path: Option<String>,
    pub tls_insecure_skip_verify: Option<bool>,
}

/// The global options of the command line.
#[derive(Debug)]
pub struct ClientFlags {
    /// `--endpoint <URL>`.
    pub endpoint: Option<String>,
    /// `--ca-cert <path>`.
    pub ca_cert: Option<String>,
    /// `--insecure`.
    pub insecure: bool,
}

/// The settings the client runs with.
#[derive(Debug)]
pub struct ClientSettings {
    /// The endpoint, without trailing `/`.
    pub endpoint: String,
    /// The `Authorization` value sent with requests; `None` sends none.
    pub token: Option<String>,
    pub timeout_secs: u64,
    /// The root CA certificate (PEM) that server certificates are checked against.
    pub ca_cert: Option<String>,
    /// Whether server certificates go unchecked.
    pub insecure: bool,
}

/// The endpoint chosen: the command line's, else the configuration's, else
/// `http://127.0.0.1:9999`.
pub open spec fn chosen_endpoint(flag: Option<String>, cfg: Option<ClientConfig>) -> Seq<char> {
    match flag {
        Some(e) => e@,
        None => match cfg {
            Some(c) if c.endpoint is Some => c.endpoint->0@,
            _ => "http://127.0.0.1:9999"@,
        },
    }
}

/// Derives the client's settings from its configuration (`None` when there
/// is no configuration file), the global options, and the directory of the
/// configuration file. The command line's endpoint and CA certificate take
/// precedence over the configuration's; the configuration's CA path is
/// resolved against `config_dir`; the timeout is 300 s by default; without a
/// configuration no token is sent.
pub fn client_settings(cfg: Option<ClientConfig>, flags: ClientFlags, config_dir: &str) -> (r:
    ClientSettings)
    ensures
        r.endpoint@ == trim_trailing_slashes(chosen_endpoint(flags.endpoint, cfg)),
        r.token == (match cfg {
            Some(c) => c.token,
            None => None,
        }),
        r.timeout_secs == (match cfg {
            Some(c) if c.timeout_secs is Some => c.timeout_secs->0,
            _ => 300,
        }),
        match flags.ca_cert {
            Some(p) => r.ca_cert == Some(p),
            None => match cfg {
                Some(c) if c.tls_ca_cert_pem_path is Some => r.ca_cert matches Some(x) && x@
                    == join_path(config_dir@, c.tls_ca_cert_pem_path->0@),
                _ => r.ca_cert is None,
            },
        },
        r.insecure == (flags.insecure || (cfg matches Some(c) && c.tls_insecure_skip_verify
            == Some(true))),
{
    let ghost chosen = chosen_endpoint(flags.endpoint, cfg);
    let (cfg_endpoint, token, timeout_secs, cfg_ca, cfg_insecure) = match cfg {
        Some(c) => (
            c.endpoint,
            c.token,
            match c.timeout_secs {
                Some(t) => t,
                None => 300,
            },
            c.tls_ca_cert_pem_path,
            match c.tls_insecure_skip_verify {
                Some(b) => b,
                None => false,
            },
        ),
        None => (None, None, 300, None, false),
    };
    let endpoint = match flags.endpoint {
        Some(e) => endpoint_base(e.as_str()),
        None => match cfg_endpoint {
            Some(e) => endpoint_base(e.as_str()),
            None => endpoint_base("http://127.0.0.1:9999"),
        },
    };
    let ca_cert = match flags.ca_cert {
        Some(p) => Some(p),
        None => match cfg_ca {
            Some(p) => Some(join_paths(config_dir, p.as_str())),
            None => None,
        },
    };
    ClientSettings { endpoint, token, timeout_secs, ca_cert, insecure: flags.insecure || cfg_insecure }
}

/// The URL of the health endpoint: `<endpoint>/health`.
pub fn health_url(endpoint: &str) -> (r: String)
    ensures
        r@ == endpoint@ + "/health"@,
{
    let mut url = String::from_str(endpoint);
    url.append("/health");
    url
}

/// Appends `b` to `a`, with the bytes of the result.
fn append_str(a: &mut String, b: &str)
    ensures
        final(a)@ == old(a)@ + b@,
        bytes_of(final(a)@) == bytes_of(old(a)@) + bytes_of(b@),
{
    let ghost before = a@;
    a.append(b);
    proof {
        lemma_bytes_of_concat(before, b@);
    }
}

/// The URL of an object: `<endpoint>/<encoded key>`.
pub fn object_url(endpoint: &str, key: &str) -> (r: String)
    ensures
        bytes_of(r@) == bytes_of(endpoint@) + seq![0x2Fu8] + encoded_key_bytes(key@),
{
    let mut url = String::from_str(endpoint);
    append_str(&mut url, "/");
    proof {
        reveal_strlit("/");
        assert("/"@ =~= seq!['/']);
        lemma_bytes_of_slash();
    }
    let enc = encode_key(key);
    append_str(&mut url, enc.as_str());
    url
}

/// One `name=value` pair of a query, the value URL-encoded.
pub open spec fn query_pair(name: Seq<char>, value: Seq<char>) -> Seq<u8> {
    bytes_of(name) + seq![0x3Du8] + url_encoded_bytes(bytes_of(value))
}

/// Query pairs joined by `&`.
pub open spec fn join_query(pairs: Seq<Seq<u8>>) -> Seq<u8>
    decreases pairs.len(),
{
    if pairs.len() == 0 {
        seq![]
    } else if pairs.len() == 1 {
        pairs[0]
    } else {
        join_query(pairs.drop_last()) + seq![0x26u8] + pairs.last()
    }
}

/// The pair for an optional parameter, when given.
pub open spec fn optional_pair(name: Seq<char>, value: Option<Seq<char>>) -> Seq<Seq<u8>> {
    match value {
        Some(v) => seq![query_pair(name, v)],
        None => seq![],
    }
}

/// The query pairs of a listing, in this order: prefix, limit, cursor.
pub open spec fn list_query_pairs(
    prefix: Option<Seq<char>>,
    limit: Option<nat>,
    cursor: Option<Seq<char>>,
) -> Seq<Seq<u8>> {
    optional_pair("prefix"@, prefix) + optional_pair(
        "limit"@,
        match limit {
            Some(l) => Some(decimal(l)),
            None => None,
        },
    ) + optional_pair("cursor"@, cursor)
}

/// The URL of a listing: `<endpoint>/`, then `?` and the pairs when there are any.
pub open spec fn list_url_bytes(
    endpoint: Seq<char>,
    prefix: Option<Seq<char>>,
    limit: Option<nat>,
    cursor: Option<Seq<char>>,
) -> Seq<u8> {
    let pairs = list_query_pairs(prefix, limit, cursor);
    bytes_of(endpoint) + seq![0x2Fu8] + if pairs.len() == 0 {
        Seq::<u8>::empty()
    } else {
        seq![0x3Fu8] + join_query(pairs)
    }
}

/// Each listing parameter stands in the URL on its own: the prefix alone
/// gives `/?prefix=..`, the limit alone `/?limit=..`, both
/// `/?prefix=..&limit=..`, none gives `/`; and a
/// cursor, whatever else is given, adds its pair at the end, after `?` when
/// nothing else is given and after `&` otherwise.
pub proof fn lemma_list_url_parameters(
    endpoint: Seq<char>,
    prefix: Option<Seq<char>>,
    limit: Option<nat>,
    cursor: Seq<char>,
)
    ensures
        list_url_bytes(endpoint, None, None, None) == bytes_of(endpoint) + seq![0x2Fu8],
        prefix matches Some(p) ==> list_url_bytes(endpoint, prefix, None, None) == bytes_of(
            endpoint,
        ) + seq![0x2Fu8, 0x3Fu8] + query_pair("prefix"@, p),
        limit matches Some(l) ==> list_url_bytes(endpoint, None, limit, None) == bytes_of(endpoint)
            + seq![0x2Fu8, 0x3Fu8] + query_pair("limit"@, decimal(l)),
        prefix matches Some(p) ==> (limit matches Some(l) ==> list_url_bytes(
            endpoint,
            prefix,
            limit,
            None,
        ) == bytes_of(endpoint) + seq![0x2Fu8, 0x3Fu8] + query_pair("prefix"@, p) + seq![0x26u8]
            + query_pair("limit"@, decimal(l))),
        list_url_bytes(endpoint, prefix, limit, Some(cursor)) == list_url_bytes(
            endpoint,
            prefix,
            limit,
            None,
        ) + (if prefix is None && limit is None {
            seq![0x3Fu8]
        } else {
            seq![0x26u8]
        }) + query_pair("cursor"@, cursor),
{
    let before = list_query_pairs(prefix, limit, None);
    let after = list_query_pairs(prefix, limit, Some(cursor));
    let q = query_pair("cursor"@, cursor);
    assert(after =~= before.push(q));
    assert(after.drop_last() =~= before);
    assert(list_query_pairs(None, None, None) =~= Seq::<Seq<u8>>::empty());
    if let Some(p) = prefix {
        assert(list_query_pairs(prefix, None, None) =~= seq![query_pair("prefix"@, p)]);
    }
    if let Some(l) = limit {
        assert(list_query_pairs(None, limit, None) =~= seq![query_pair("limit"@, decimal(l))]);
        if let Some(p) = prefix {
            let two = list_query_pairs(prefix, limit, None);
            assert(two =~= seq![query_pair("prefix"@, p), query_pair("limit"@, decimal(l))]);
            assert(two.drop_last() =~= seq![query_pair("prefix"@, p)]);
            assert(join_query(two.drop_last()) == query_pair("prefix"@, p));
            assert(two.last() == query_pair("limit"@, decimal(l)));
            assert(two.len() == 2);
            assert(join_query(two) == query_pair("prefix"@, p) + seq![0x26u8] + query_pair(
                "limit"@,
                decimal(l),
            ));
            assert(list_url_bytes(endpoint, prefix, limit, None) =~= bytes_of(endpoint) + seq![
                0x2Fu8,
                0x3Fu8,
            ] + query_pair("prefix"@, p) + seq![0x26u8] + query_pair("limit"@, decimal(l)));
        }
    }
    if before.len() == 0 {
        assert(after =~= seq![q]);
    }
}

/// The view of an optional text.
pub open spec fn opt_view(o: Option<String>) -> Option<Seq<char>> {
    match o {
        Some(s) => Some(s@),
        None => None,
    }
}

/// Writes one `name=value` pair.
fn query_pair_string(name: &str, value: &str) -> (r: String)
    ensures
        bytes_of(r@) == query_pair(name@, value@),
{
    let mut p = String::from_str(name);
    append_str(&mut p, "=");
    proof {
        reveal_strlit("=");
        assert("="@ =~= seq!['=']);
        assert(bytes_of(seq!['=']) =~= seq![0x3Du8]) by {
            let s = seq!['='];
            assert(s.drop_first() =~= Seq::<char>::empty());
            assert(('=' as u32) == 0x3D);
            assert((0x3Du32 & 0x7F) as u8 == 0x3Du8) by (bit_vector);
            assert(encode_utf8(s.drop_first()) =~= Seq::<u8>::empty());
            assert(has_width_1_encoding(s[0] as u32));
        }
    }
    let enc = url_encode(value);
    append_str(&mut p, enc.as_str());
    p
}

/// The URL of a listing with the given optional parameters.
#[verifier::rlimit(40)]
pub fn list_url(
    endpoint: &str,
    prefix: Option<String>,
    limit: Option<usize>,
    cursor: Option<String>,
) -> (r: String)
    ensures
        bytes_of(r@) == list_url_bytes(
            endpoint@,
            opt_view(prefix),
            match limit {
                Some(l) => Some(l as nat),
                None => None,
            },
            opt_view(cursor),
        ),
{
    let mut pairs: Vec<String> = Vec::new();
    let ghost mut views: Seq<Seq<u8>> = seq![];
    if let Some(p) = &prefix {
        pairs.push(query_pair_string("prefix", p.as_str()));
        proof {
            views = views.push(query_pair("prefix"@, p@));
        }
    }
    if let Some(l) = limit {
        let digits = u64_to_decimal(l as u64);
        pairs.push(query_pair_string("limit", digits.as_str()));
        proof {
            views = views.push(query_pair("limit"@, decimal(l as nat)));
        }
    }
    if let Some(c) = &cursor {
        pairs.push(query_pair_string("cursor", c.as_str()));
        proof {
            views = views.push(query_pair("cursor"@, c@));
        }
    }
    let ghost want = list_query_pairs(
        opt_view(prefix),
        match limit {
            Some(l) => Some(l as nat),
            None => None,
        },
        opt_view(cursor),
    );
    assert(views =~= want);
    assert(pairs@.len() == views.len());
    let mut url = String::from_str(endpoint);
    append_str(&mut url, "/");
    proof {
        reveal_strlit("/");
        assert("/"@ =~= seq!['/']);
        lemma_bytes_of_slash();
    }
    if pairs.len() > 0 {
        append_str(&mut url, "?");
        proof {
            reveal_strlit("?");
            assert("?"@ =~= seq!['?']);
            let s = seq!['?'];
            assert(s.drop_first() =~= Seq::<char>::empty());
            assert(('?' as u32) == 0x3F);
            assert((0x3Fu32 & 0x7F) as u8 == 0x3Fu8) by (bit_vector);
            assert(encode_utf8(s.drop_first()) =~= Seq::<u8>::empty());
            assert(has_width_1_encoding(s[0] as u32));
            assert(bytes_of(s) =~= seq![0x3Fu8]);
        }
        let ghost base = bytes_of(url@);
        let mut k: usize = 0;
        while k < pairs.len()
            invariant
                0 <= k <= pairs@.len(),
                pairs@.len() == views.len(),
                views.len() > 0,
                forall|j: int| 0 <= j < pairs@.len() ==> bytes_of(#[trigger] pairs@[j]@) == views[j],
                bytes_of(url@) == base + join_query(views.take(k as int)),
            decreases pairs@.len() - k,
        {
            assert(views.take(k + 1).drop_last() =~= views.take(k as int));
            if k > 0 {
                append_str(&mut url, "&");
                proof {
                    reveal_strlit("&");
                    assert("&"@ =~= seq!['&']);
                    let s = seq!['&'];
                    assert(s.drop_first() =~= Seq::<char>::empty());
                    assert(('&' as u32) == 0x26);
                    assert((0x26u32 & 0x7F) as u8 == 0x26u8) by (bit_vector);
                    assert(encode_utf8(s.drop_first()) =~= Seq::<u8>::empty());
                    assert(has_width_1_encoding(s[0] as u32));
                    assert(bytes_of(s) =~= seq![0x26u8]);
                }
            } else {
                assert(views.take(0) =~= Seq::<Seq<u8>>::empty());
            }
            append_str(&mut url, pairs[k].as_str());
            proof {
                assert(views.take(k + 1).last() == views[k as int]);
                if k == 0 {
                    assert(base + join_query(views.take(1)) =~= base + views[0]);
                } else {
                    assert(join_query(views.take(k + 1)) =~= join_query(views.take(k as int)) + seq![
                        0x26u8,
                    ] + views[k as int]);
                }
            }
            k = k + 1;
        }
        assert(views.take(views.len() as int) =~= views);
    } else {
        assert(bytes_of(url@) =~= bytes_of(endpoint@) + seq![0x2Fu8] + Seq::<u8>::empty());
    }
    url
}

/* ---------------- download length ---------------- */

/// `c` is an ASCII decimal digit.
pub open spec fn is_digit(c: char) -> bool {
    '0' <= c <= '9'
}

/// The value of a decimal digit.
pub open spec fn digit_value(c: char) -> nat {
    (c as u32 - 48) as nat
}

/// The value of a sequence of decimal digits.
pub open spec fn digits_value(s: Seq<char>) -> nat
    decreases s.len(),
{
    if s.len() == 0 {
        0
    } else {
        digits_value(s.drop_last()) * 10 + digit_value(s.last())
    }
}

/// Every character of `d` is a decimal digit.
pub open spec fn all_digits(d: Seq<char>) -> bool {
    forall|i: int| 0 <= i < d.len() ==> is_digit(#[trigger] d[i])
}

/// The digits that `str::parse` reads: `s` without one leading `+`.
pub open spec fn unsigned_digits(s: Seq<char>) -> Seq<char> {
    if s.len() > 0 && s[0] == '+' {
        s.drop_first()
    } else {
        s
    }
}

/// What `str::parse::<u64>` accepts: an optional `+`, then at least one
/// decimal digit, with a value that fits in `u64`.
pub open spec fn parsed_u64(s: Seq<char>) -> Option<u64> {
    let d = unsigned_digits(s);
    if d.len() > 0 && all_digits(d) && digits_value(d) <= u64::MAX {
        Some(digits_value(d) as u64)
    } else {
        None
    }
}

proof fn lemma_digits_value_grows(s: Seq<char>, i: int)
    requires
        0 <= i <= s.len(),
        forall|j: int| 0 <= j < s.len() ==> is_digit(#[trigger] s[j]),
    ensures
        digits_value(s.take(i)) <= digits_value(s),
    decreases s.len() - i,
{
    if i < s.len() {
        lemma_digits_value_grows(s, i + 1);
        assert(s.take(i + 1).drop_last() =~= s.take(i));
        assert(digits_value(s.take(i + 1)) == digits_value(s.take(i)) * 10 + digit_value(
            s[i],
        ));
    } else {
        assert(s.take(i) =~= s);
    }
}

/// Parses a decimal number as `str::parse::<u64>` does.
pub fn parse_u64(s: &str) -> (r: Option<u64>)
    ensures
        r == parsed_u64(s@),
{
    let v = chars_of(s);
    let n = v.len();
    let mut i: usize = 0;
    if n > 0 && v[0] == '+' {
        i = 1;
    }
    let ghost d = unsigned_digits(s@);
    assert(d =~= v@.subrange(i as int, n as int));
    if i == n {
        return None;
    }
    let start = i;
    let mut acc: u64 = 0;
    while i < n
        invariant
            v@ == s@,
            n == v@.len(),
            start <= i <= n,
            start < n,
            d =~= v@.subrange(start as int, n as int),
            d == unsigned_digits(s@),
            forall|j: int| start <= j < i ==> is_digit(#[trigger] v@[j]),
            acc as nat == digits_value(v@.subrange(start as int, i as int)),
        decreases n - i,
    {
        let c = v[i];
        assert(v@.subrange(start as int, i + 1).drop_last() =~= v@.subrange(start as int, i as int));
        if !('0' <= c && c <= '9') {
            assert(!is_digit(d[i - start]));
            assert(!all_digits(d));
            assert(parsed_u64(s@) is None);
            return None;
        }
        let dv = (c as u32 - 48) as u64;
        if acc > (u64::MAX - dv) / 10 {
            proof {
                // the value only grows with more digits, so the whole number overflows too
                if all_digits(d) {
                    lemma_digits_value_grows(d, i + 1 - start);
                    assert(d.take(i + 1 - start) =~= v@.subrange(start as int, i + 1));
                    assert(digit_value(c) == dv);
                    assert(acc * 10 + dv > u64::MAX) by (nonlinear_arith)
                        requires
                            acc > (u64::MAX - dv) / 10,
                            dv <= 9,
                    ;
                    assert(digits_value(v@.subrange(start as int, i + 1)) == acc * 10 + dv);
                }
                assert(parsed_u64(s@) is None);
            }
            return None;
        }
        acc = acc * 10 + dv;
        i = i + 1;
    }
    assert(v@.subrange(start as int, n as int) =~= d);
    Some(acc)
}

/// The length a download announces: the `Content-Length` header parsed as a
/// number, 0 when it is missing or not a number.
pub fn content_length(header: Option<&str>) -> (r: u64)
    ensures
        r == match header {
            Some(h) => match parsed_u64(h@) {
                Some(n) => n,
                None => 0,
            },
            None => 0,
        },
{
    match header {
        Some(h) => match parse_u64(h) {
            Some(n) => n,
            None => 0,
        },
        None => 0,
    }
}

/* ---------------- uploads and output ---------------- */

/// The media type of an upload: the one given, or the one guessed from the
/// local file name.
pub fn upload_content_type(explicit: Option<String>, local: &str) -> (r: String)
    ensures
        r@ == match explicit {
            Some(t) => t@,
            None => guessed_mime(local@),
        },
{
    match explicit {
        Some(t) => t,
        None => guess_mime(local),
    }
}

/// What `rm` prints: the server's answer when it holds more than whitespace,
/// else `deleted <key>`.
pub fn rm_output(txt: &str, key: &str) -> (r: String)
    ensures
        r@ == if trimmed(txt@).len() > 0 {
            txt@
        } else {
            "deleted "@ + key@
        },
{
    let t = trim_whitespace(txt);
    if !t.as_str().is_empty() {
        String::from_str(txt)
    } else {
        let mut r = String::from_str("deleted ");
        r.append(key);
        r
    }
}

/// `s` right-aligned in `width` columns.
pub open spec fn pad_left(s: Seq<char>, width: nat) -> Seq<char> {
    if s.len() < width {
        Seq::new((width - s.len()) as nat, |i: int| ' ') + s
    } else {
        s
    }
}

fn pad_left_string(s: &str, width: usize) -> (r: String)
    ensures
        r@ == pad_left(s@, width as nat),
{
    let n = s.unicode_len();
    let mut r = String::new();
    if n < width {
        let mut k: usize = 0;
        proof {
            reveal_strlit(" ");
        }
        while k < width - n
            invariant
                n == s@.len(),
                n < width,
                k <= width - n,
                r@ =~= Seq::new(k as nat, |i: int| ' '),
            decreases width - n - k,
        {
            r.append(" ");
            proof {
                reveal_strlit(" ");
            }
            assert(" "@ =~= seq![' ']);
            k = k + 1;
        }
    }
    r.append(s);
    r
}

/// One line of the item table: size right-aligned in ten columns, the
/// modification time (or `-`), the key.
pub open spec fn item_line(e: ListItem) -> Seq<char> {
    "  "@ + pad_left(decimal(e.size as nat), 10) + "  "@ + (match e.last_modified {
        Some(t) => t@,
        None => "-"@,
    }) + "  "@ + e.key@
}

/// The lines `ls` prints: the items and the next cursor, each part only
/// when present.
pub open spec fn ls_lines(items: Seq<ListItem>, next: Option<String>) -> Seq<Seq<char>> {
    (if items.len() > 0 {
        seq!["Items:"@] + Seq::new(items.len(), |i: int| item_line(items[i]))
    } else {
        Seq::<Seq<char>>::empty()
    }) + (match next {
        Some(c) => seq![""@, "next_cursor="@ + c@],
        None => Seq::<Seq<char>>::empty(),
    })
}

/// The views of lines.
pub open spec fn line_views(lines: Seq<String>) -> Seq<Seq<char>> {
    Seq::new(lines.len(), |i: int| lines[i]@)
}

fn item_line_string(e: &ListItem) -> (r: String)
    ensures
        r@ == item_line(*e),
{
    let mut r = String::from_str("  ");
    let size = u64_to_decimal(e.size);
    let padded = pad_left_string(size.as_str(), 10);
    r.append(padded.as_str());
    r.append("  ");
    match &e.last_modified {
        Some(t) => r.append(t.as_str()),
        None => r.append("-"),
    }
    r.append("  ");
    r.append(e.key.as_str());
    r
}

fn push_line(out: &mut Vec<String>, line: String)
    ensures
        line_views(final(out)@) == line_views(old(out)@).push(line@),
{
    let ghost before = out@;
    out.push(line);
    assert(line_views(out@) =~= line_views(before).push(line@));
}

/// The lines `ls` prints for a listing answer.
pub fn ls_output(items: &Vec<ListItem>, next: &Option<String>) -> (r: Vec<String>)
    ensures
        line_views(r@) == ls_lines(items@, *next),
{
    let mut out: Vec<String> = Vec::new();
    assert(line_views(out@) =~= Seq::<Seq<char>>::empty());
    proof {
        reveal_strlit("");
        assert(""@ =~= Seq::<char>::empty());
    }
    let ghost part1 = line_views(out@);
    if items.len() > 0 {
        push_line(&mut out, String::from_str("Items:"));
        let ghost head = line_views(out@);
        let mut k: usize = 0;
        while k < items.len()
            invariant
                k <= items@.len(),
                line_views(out@) == head + Seq::new(k as nat, |i: int| item_line(items@[i])),
            decreases items@.len() - k,
        {
            let line = item_line_string(&items[k]);
            let ghost lv = line@;
            push_line(&mut out, line);
            assert(head + Seq::new((k + 1) as nat, |i: int| item_line(items@[i])) =~= (head
                + Seq::new(k as nat, |i: int| item_line(items@[i]))).push(lv));
            k = k + 1;
        }
    }
    let ghost part2 = line_views(out@);
    assert(part2 =~= (if items@.len() > 0 {
        seq!["Items:"@] + Seq::new(items@.len(), |i: int| item_line(items@[i]))
    } else {
        Seq::<Seq<char>>::empty()
    }));
    match next {
        Some(c) => {
            push_line(&mut out, String::new());
            let mut line = String::from_str("next_cursor=");
            line.append(c.as_str());
            push_line(&mut out, line);
            assert(line_views(out@) =~= part2 + seq![""@, "next_cursor="@ + c@]);
        },
        None => {
            assert(line_views(out@) =~= part2 + Seq::<Seq<char>>::empty());
        },
    }
    out
}

} // verus!
