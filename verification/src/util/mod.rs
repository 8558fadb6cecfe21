//! Conversions between the protocol's values and text: URL-safe base64 for
//! peer IDs, and socket addresses in the form that Rust's standard library
//! reads.
use vstd::prelude::*;
use vstd::string::*;
use vstd::utf8::{encode_utf8, is_ascii_chars, is_ascii_chars_encode_utf8};

use crate::error::{parsing_error, result_is, Error, ErrorView};
use crate::socket::{socket_text, SocketAddrV4, SocketAddrView};
use crate::text::{
    all_digits, ascii_bytes, decimal, digits_value, dotted_fields, find_byte, find_dots, is_digit,
    lemma_ascii_bytes_concat, lemma_decimal, lemma_split_first_at, lemma_split_first_parts,
    parse_digits, split_first,
};

pub mod base64;
pub mod parse_ipv4;

verus! {

/// `base64::DecodeError`, the error of a failed base64 decoding.
#[verifier::external_type_specification]
#[verifier::external_body]
pub struct ExDecodeError(::base64::DecodeError);

/// The character of the URL-safe base64 alphabet for the six-bit value `v`:
/// `A` to `Z`, `a` to `z`, `0` to `9`, then `-` and `_`.
pub open spec fn url_safe_symbol(v: int) -> char {
    if v < 26 {
        (65 + v) as char
    } else if v < 52 {
        (97 + (v - 26)) as char
    } else if v < 62 {
        (48 + (v - 52)) as char
    } else if v == 62 {
        '-'
    } else {
        '_'
    }
}

/// The URL-safe base64 text of `b`, without padding: every three bytes give
/// four characters for their 24 bits, most significant first; two bytes left
/// over give three characters and one byte two, the missing low bits being
/// zero.
pub open spec fn base64_url_encoding(b: Seq<u8>) -> Seq<char>
    decreases b.len(),
{
    if b.len() == 0 {
        seq![]
    } else if b.len() == 1 {
        seq![url_safe_symbol(b[0] as int / 4), url_safe_symbol((b[0] as int % 4) * 16)]
    } else if b.len() == 2 {
        seq![
            url_safe_symbol(b[0] as int / 4),
            url_safe_symbol((b[0] as int % 4) * 16 + b[1] as int / 16),
            url_safe_symbol((b[1] as int % 16) * 4),
        ]
    } else {
        seq![
            url_safe_symbol(b[0] as int / 4),
            url_safe_symbol((b[0] as int % 4) * 16 + b[1] as int / 16),
            url_safe_symbol((b[1] as int % 16) * 4 + b[2] as int / 64),
            url_safe_symbol(b[2] as int % 64),
        ] + base64_url_encoding(b.skip(3))
    }
}

/// The number of characters of the URL-safe base64 text of `n` bytes,
/// without padding: four for every three bytes, and two or three for one or
/// two bytes left over.
pub open spec fn base64_url_len(n: nat) -> nat {
    4 * (n / 3) + if n % 3 == 0 {
        0
    } else {
        n % 3 + 1
    }
}

/// What `base64::decode_config` with the `URL_SAFE_NO_PAD` configuration
/// gives for `text`: the decoded bytes, or `None` where it fails.
pub uninterp spec fn base64_url_decoding(text: Seq<char>) -> Option<Seq<u8>>;

/// A character of the URL-safe base64 alphabet: letters, digits, `-` and `_`.
pub open spec fn is_url_safe_char(c: char) -> bool {
    ('A' <= c <= 'Z') || ('a' <= c <= 'z') || ('0' <= c <= '9') || c == '-' || c == '_'
}

/// The symbol of a six-bit value is of the URL-safe alphabet.
proof fn lemma_url_safe_symbol(v: int)
    requires
        0 <= v < 64,
    ensures
        is_url_safe_char(url_safe_symbol(v)),
{
}

/// The URL-safe base64 text of `b` has `base64_url_len` characters, all of
/// the URL-safe alphabet.
pub proof fn lemma_base64_url_encoding(b: Seq<u8>)
    ensures
        base64_url_encoding(b).len() == base64_url_len(b.len()),
        forall|i: int|
            0 <= i < base64_url_encoding(b).len() ==> is_url_safe_char(
                #[trigger] base64_url_encoding(b)[i],
            ),
    decreases b.len(),
{
    let e = base64_url_encoding(b);
    if b.len() == 0 {
    } else if b.len() == 1 {
        lemma_url_safe_symbol(b[0] as int / 4);
        lemma_url_safe_symbol((b[0] as int % 4) * 16);
        assert forall|i: int| 0 <= i < e.len() implies is_url_safe_char(#[trigger] e[i]) by {
            if i == 0 {
            } else {
            }
        }
    } else if b.len() == 2 {
        lemma_url_safe_symbol(b[0] as int / 4);
        lemma_url_safe_symbol((b[0] as int % 4) * 16 + b[1] as int / 16);
        lemma_url_safe_symbol((b[1] as int % 16) * 4);
    } else {
        lemma_url_safe_symbol(b[0] as int / 4);
        lemma_url_safe_symbol((b[0] as int % 4) * 16 + b[1] as int / 16);
        lemma_url_safe_symbol((b[1] as int % 16) * 4 + b[2] as int / 64);
        lemma_url_safe_symbol(b[2] as int % 64);
        let rest = b.skip(3);
        lemma_base64_url_encoding(rest);
        let head = seq![
            url_safe_symbol(b[0] as int / 4),
            url_safe_symbol((b[0] as int % 4) * 16 + b[1] as int / 16),
            url_safe_symbol((b[1] as int % 16) * 4 + b[2] as int / 64),
            url_safe_symbol(b[2] as int % 64),
        ];
        assert(e == head + base64_url_encoding(rest));
        assert(rest.len() == b.len() - 3);
        assert(base64_url_len(b.len()) == 4 + base64_url_len(rest.len()));
        assert forall|i: int| 0 <= i < e.len() implies is_url_safe_char(#[trigger] e[i]) by {
            if i >= 4 {
                assert(e[i] == base64_url_encoding(rest)[i - 4]);
            }
        }
    }
}

/// `base64::encode_config(bytes, base64::URL_SAFE_NO_PAD)`: the URL-safe
/// base64 text of `bytes`, without padding. Claimed of it: the result is
/// `base64_url_encoding` of `bytes`. It panics when the length of the text
/// overflows `usize`, which the bound on the input's length rules out.
#[verifier::external_body]
fn encode_url_safe_no_pad(bytes: &[u8]) -> (s: String)
    requires
        bytes@.len() <= usize::MAX / 4,
    ensures
        s@ == base64_url_encoding(bytes@),
{
    ::base64::encode_config(bytes, ::base64::URL_SAFE_NO_PAD)
}

/// `base64::decode_config(text, base64::URL_SAFE_NO_PAD)`: the bytes that the
/// URL-safe base64 `text` stands for. Claimed of it: it succeeds exactly when
/// the named decoding does and then gives its bytes, and it gives back the
/// bytes of which `text` is the encoding. It panics when the length of the
/// text plus 3 overflows `usize`, which the bound rules out.
#[verifier::external_body]
fn decode_url_safe_no_pad(text: &str) -> (r: Result<Vec<u8>, ::base64::DecodeError>)
    requires
        text.spec_bytes().len() <= usize::MAX - 3,
    ensures
        (r is Ok) == (base64_url_decoding(text@) is Some),
        r matches Ok(v) ==> v@ == base64_url_decoding(text@)->0,
        r is Ok || forall|b: Seq<u8>| text@ != #[trigger] base64_url_encoding(b),
        r matches Ok(v) ==> forall|b: Seq<u8>|
            text@ == #[trigger] base64_url_encoding(b) ==> v@ == b,
{
    ::base64::decode_config(text, ::base64::URL_SAFE_NO_PAD)
}

/// Encodes bytes as URL-safe base64 text without padding.
pub fn base64_encode(bytes: &[u8]) -> (s: String)
    requires
        bytes@.len() <= usize::MAX / 4,
    ensures
        s@ == base64_url_encoding(bytes@),
        s@.len() == base64_url_len(bytes@.len()),
        forall|i: int| 0 <= i < s@.len() ==> is_url_safe_char(#[trigger] s@[i]),
        encode_utf8(s@).len() == s@.len(),
        s@.len() <= usize::MAX - 3,
{
    let s = encode_url_safe_no_pad(bytes);
    proof {
        lemma_base64_url_encoding(bytes@);
        assert(is_ascii_chars(s@)) by {
            assert forall|k: int| 0 <= k < s@.len() implies '\0' <= #[trigger] s@[k] <= '\u{7f}' by {
                assert(is_url_safe_char(s@[k]));
            }
        }
        is_ascii_chars_encode_utf8(s@);
    }
    s
}

/// Decodes URL-safe base64 text without padding. Text that is not such base64
/// gives `Error::Base64Decode` with the text.
pub fn base64_decode(string: &str) -> (r: Result<Vec<u8>, Error>)
    requires
        string.spec_bytes().len() <= usize::MAX - 3,
    ensures
        result_is(
            r,
            match base64_url_decoding(string@) {
                Some(b) => Ok(b),
                None => Err(ErrorView::Base64Decode { string: string@ }),
            },
        ),
        forall|b: Seq<u8>|
            #![trigger base64_url_encoding(b)]
            string@ == base64_url_encoding(b) ==> (r matches Ok(v) && v@ == b),
{
    match decode_url_safe_no_pad(string) {
        Ok(v) => Ok(v),
        Err(_) => Err(Error::Base64Decode { string: string.to_owned() }),
    }
}

/// A field of an IPv4 address as Rust's standard library reads it: one to
/// three decimal digits, without a leading zero unless it is the only digit,
/// standing for at most 255.
pub open spec fn std_octet(s: Seq<u8>) -> bool {
    &&& 1 <= s.len() <= 3
    &&& all_digits(s)
    &&& (s.len() == 1 || s[0] != 48)
    &&& digits_value(s) <= 255
}

/// A port as Rust's standard library reads it: decimal digits standing for at
/// most 65535.
pub open spec fn std_port(s: Seq<u8>) -> bool {
    &&& s.len() >= 1
    &&& all_digits(s)
    &&& digits_value(s) <= 65535
}

/// The socket address that Rust's standard library reads from the text with
/// the bytes `b` (`a.b.c.d:port`), if it reads one.
pub open spec fn std_socket_addr(b: Seq<u8>) -> Option<SocketAddrView> {
    match split_first(b, 58) {
        None => None,
        Some((ip, port)) => match dotted_fields(ip) {
            None => None,
            Some(f) => if std_octet(f[0]) && std_octet(f[1]) && std_octet(f[2]) && std_octet(f[3])
                && std_port(port) {
                Some(
                    SocketAddrView {
                        octets: seq![
                            digits_value(f[0]) as u8,
                            digits_value(f[1]) as u8,
                            digits_value(f[2]) as u8,
                            digits_value(f[3]) as u8,
                        ],
                        port: digits_value(port) as u16,
                    },
                )
            } else {
                None
            },
        },
    }
}

/// The parts of socket-address text: split at its first colon, then the
/// part before at its first three dots, the text is the four fields and the
/// port, separated by three dots and a colon.
pub proof fn lemma_address_parts(b: Seq<u8>) -> (f: Seq<Seq<u8>>)
    requires
        split_first(b, 58) is Some,
        ({
            let (ip, p) = split_first(b, 58)->0;
            dotted_fields(ip) is Some
        }),
    ensures
        f.len() == 5,
        ({
            let (ip, p) = split_first(b, 58)->0;
            f.take(4) == dotted_fields(ip)->0 && f[4] == p
        }),
        b == f[0] + seq![46u8] + f[1] + seq![46u8] + f[2] + seq![46u8] + f[3] + seq![58u8] + f[4],
{
    lemma_split_first_parts(b, 58);
    let (ip, p) = split_first(b, 58)->0;
    lemma_split_first_parts(ip, 46);
    let (f0, r0) = split_first(ip, 46)->0;
    lemma_split_first_parts(r0, 46);
    let (f1, r1) = split_first(r0, 46)->0;
    lemma_split_first_parts(r1, 46);
    let (f2, f3) = split_first(r1, 46)->0;
    let f = seq![f0, f1, f2, f3, p];
    assert(f.take(4) =~= dotted_fields(ip)->0);
    assert(b =~= f0 + seq![46u8] + f1 + seq![46u8] + f2 + seq![46u8] + f3 + seq![58u8] + p);
    f
}

/// What the strict reader of socket addresses accepts: text made of four
/// runs of decimal digits separated by dots, a colon and a run of decimal
/// digits, where the runs stand for the four octets and the port of the
/// address it gives. In particular no field stands for more than 255, and
/// text with such a field is refused.
#[verifier::spinoff_prover]
pub proof fn lemma_std_socket_addr_fields(b: Seq<u8>)
    requires
        std_socket_addr(b) is Some,
    ensures
        ({
            let a = std_socket_addr(b)->0;
            exists|f0: Seq<u8>, f1: Seq<u8>, f2: Seq<u8>, f3: Seq<u8>, p: Seq<u8>|
                {
                    &&& b == f0 + seq![46u8] + f1 + seq![46u8] + f2 + seq![46u8] + f3 + seq![58u8] + p
                    &&& 1 <= f0.len() && 1 <= f1.len() && 1 <= f2.len() && 1 <= f3.len()
                    &&& 1 <= p.len()
                    &&& all_digits(f0) && all_digits(f1) && all_digits(f2) && all_digits(f3)
                    &&& all_digits(p)
                    &&& digits_value(f0) <= 255 && digits_value(f1) <= 255
                    &&& digits_value(f2) <= 255 && digits_value(f3) <= 255
                    &&& digits_value(p) <= 65535
                    &&& a.octets.len() == 4
                    &&& a.octets[0] as nat == digits_value(f0)
                    &&& a.octets[1] as nat == digits_value(f1)
                    &&& a.octets[2] as nat == digits_value(f2)
                    &&& a.octets[3] as nat == digits_value(f3)
                    &&& a.port as nat == digits_value(p)
                }
        }),
{
    let a = std_socket_addr(b)->0;
    lemma_split_first_parts(b, 58);
    let (ip, p) = split_first(b, 58)->0;
    lemma_split_first_parts(ip, 46);
    let (f0, r0) = split_first(ip, 46)->0;
    lemma_split_first_parts(r0, 46);
    let (f1, r1) = split_first(r0, 46)->0;
    lemma_split_first_parts(r1, 46);
    let (f2, f3) = split_first(r1, 46)->0;
    let f = dotted_fields(ip)->0;
    assert(f =~= seq![f0, f1, f2, f3]);
    assert(b =~= f0 + seq![46u8] + f1 + seq![46u8] + f2 + seq![46u8] + f3 + seq![58u8] + p);
    assert(a.octets[0] as nat == digits_value(f0));
    assert(a.octets[1] as nat == digits_value(f1));
    assert(a.octets[2] as nat == digits_value(f2));
    assert(a.octets[3] as nat == digits_value(f3));
}

/// Reads an IPv4 field in `s[start..end]` as Rust's standard library does.
fn parse_std_octet(s: &[u8], start: usize, end: usize) -> (r: Option<u8>)
    requires
        start <= end <= s@.len(),
    ensures
        ({
            let f = s@.subrange(start as int, end as int);
            r == (if std_octet(f) {
                Some(digits_value(f) as u8)
            } else {
                None
            })
        }),
{
    let ghost f = s@.subrange(start as int, end as int);
    if end - start > 3 || (end - start > 1 && s[start] == 48) {
        return None;
    }
    match parse_digits(s, start, end, 255) {
        Some(v) => Some(v as u8),
        None => None,
    }
}

/// Parses text such as `127.0.0.1:12000` into a socket address, reading it
/// as Rust's standard library reads an IPv4 socket address. Text that is not
/// such an address gives `Error::Parsing` with the text and `SocketAddrV4`.
pub fn parse_ipv4socket(string: &str) -> (r: Result<SocketAddrV4, Error>)
    ensures
        result_is(
            r,
            match std_socket_addr(string.spec_bytes()) {
                Some(a) => Ok(a),
                None => Err(parsing_error(string@, "SocketAddrV4"@)),
            },
        ),
{
    let b = string.as_bytes();
    let ghost bs = b@;
    let len = b.len();
    assert(bs.subrange(0, len as int) =~= bs);
    let err = Error::Parsing { from: string.to_owned(), to: "SocketAddrV4".to_owned() };
    let colon = match find_byte(b, 0, len, 58) {
        Some(i) => i,
        None => {
            return Err(err);
        },
    };
    assert(bs.take(colon as int) =~= bs.subrange(0, colon as int));
    assert(bs.skip(colon + 1) =~= bs.subrange(colon + 1, len as int));
    let (d1, d2, d3) = match find_dots(b, 0, colon) {
        Some(d) => d,
        None => {
            return Err(err);
        },
    };
    let o0 = parse_std_octet(b, 0, d1);
    let o1 = parse_std_octet(b, d1 + 1, d2);
    let o2 = parse_std_octet(b, d2 + 1, d3);
    let o3 = parse_std_octet(b, d3 + 1, colon);
    let port = parse_digits(b, colon + 1, len, 65535);
    match (o0, o1, o2, o3, port) {
        (Some(a0), Some(a1), Some(a2), Some(a3), Some(p)) => {
            let a = SocketAddrV4::new([a0, a1, a2, a3], p as u16);
            assert(a@.octets =~= std_socket_addr(bs)->0.octets);
            Ok(a)
        },
        _ => Err(err),
    }
}

/// The bytes of the text form of a socket address: the digits of each
/// number, separated by dots and a colon.
pub proof fn lemma_socket_text_bytes(a: SocketAddrView)
    requires
        a.octets.len() == 4,
    ensures
        is_ascii_chars(socket_text(a)),
        encode_utf8(socket_text(a)) == ascii_bytes(decimal(a.octets[0] as nat)) + seq![46u8]
            + ascii_bytes(decimal(a.octets[1] as nat)) + seq![46u8] + ascii_bytes(
            decimal(a.octets[2] as nat),
        ) + seq![46u8] + ascii_bytes(decimal(a.octets[3] as nat)) + seq![58u8] + ascii_bytes(
            decimal(a.port as nat),
        ),
{
    let d0 = decimal(a.octets[0] as nat);
    let d1 = decimal(a.octets[1] as nat);
    let d2 = decimal(a.octets[2] as nat);
    let d3 = decimal(a.octets[3] as nat);
    let dp = decimal(a.port as nat);
    lemma_decimal(a.octets[0] as nat);
    lemma_decimal(a.octets[1] as nat);
    lemma_decimal(a.octets[2] as nat);
    lemma_decimal(a.octets[3] as nat);
    lemma_decimal(a.port as nat);
    let t = socket_text(a);
    let dot = seq!['.'];
    let colon = seq![':'];
    assert('.' as u8 == 46u8);
    assert(':' as u8 == 58u8);
    assert(is_ascii_chars(dot));
    assert(is_ascii_chars(colon));
    assert(t =~= d0 + dot + d1 + dot + d2 + dot + d3 + colon + dp);
    assert(is_ascii_chars(t)) by {
        assert forall|i: int| 0 <= i < t.len() implies '\0' <= #[trigger] t[i] <= '\u{7f}' by {
            let l0 = d0.len() as int;
            let l1 = l0 + 1 + d1.len();
            let l2 = l1 + 1 + d2.len();
            let l3 = l2 + 1 + d3.len();
            if i < l0 {
                assert(t[i] == d0[i]);
            } else if i == l0 {
                assert(t[i] == '.');
            } else if i < l1 {
                assert(t[i] == d1[i - l0 - 1]);
            } else if i == l1 {
                assert(t[i] == '.');
            } else if i < l2 {
                assert(t[i] == d2[i - l1 - 1]);
            } else if i == l2 {
                assert(t[i] == '.');
            } else if i < l3 {
                assert(t[i] == d3[i - l2 - 1]);
            } else if i == l3 {
                assert(t[i] == ':');
            } else {
                assert(t[i] == dp[i - l3 - 1]);
            }
        }
    }
    is_ascii_chars_encode_utf8(t);
    assert(encode_utf8(t) =~= ascii_bytes(t));
    lemma_ascii_bytes_concat(d0, dot);
    lemma_ascii_bytes_concat(d0 + dot, d1);
    lemma_ascii_bytes_concat(d0 + dot + d1, dot);
    lemma_ascii_bytes_concat(d0 + dot + d1 + dot, d2);
    lemma_ascii_bytes_concat(d0 + dot + d1 + dot + d2, dot);
    lemma_ascii_bytes_concat(d0 + dot + d1 + dot + d2 + dot, d3);
    lemma_ascii_bytes_concat(d0 + dot + d1 + dot + d2 + dot + d3, colon);
    lemma_ascii_bytes_concat(d0 + dot + d1 + dot + d2 + dot + d3 + colon, dp);
    assert(ascii_bytes(dot) =~= seq![46u8]);
    assert(ascii_bytes(colon) =~= seq![58u8]);
}

/// Digits hold neither dots nor colons.
proof fn lemma_digits_no_sep(b: Seq<u8>)
    requires
        all_digits(b),
    ensures
        forall|i: int| 0 <= i < b.len() ==> b[i] != 46 && b[i] != 58,
{
    assert forall|i: int| 0 <= i < b.len() implies b[i] != 46 && b[i] != 58 by {
        assert(is_digit(b[i]));
    }
}

/// The text form of a socket address is ASCII and has at most 21
/// characters.
pub proof fn lemma_socket_text_len(a: SocketAddrView)
    requires
        a.octets.len() == 4,
    ensures
        is_ascii_chars(socket_text(a)),
        socket_text(a).len() <= 21,
{
    lemma_socket_text_bytes(a);
    lemma_decimal(a.octets[0] as nat);
    lemma_decimal(a.octets[1] as nat);
    lemma_decimal(a.octets[2] as nat);
    lemma_decimal(a.octets[3] as nat);
    lemma_decimal(a.port as nat);
}

/// The four fields and the port of the text form of a socket address, as
/// the readers of socket addresses split it.
#[verifier::rlimit(40)]
pub proof fn lemma_socket_text_split(a: SocketAddrView)
    requires
        a.octets.len() == 4,
    ensures
        ({
            let b = encode_utf8(socket_text(a));
            let f0 = ascii_bytes(decimal(a.octets[0] as nat));
            let f1 = ascii_bytes(decimal(a.octets[1] as nat));
            let f2 = ascii_bytes(decimal(a.octets[2] as nat));
            let f3 = ascii_bytes(decimal(a.octets[3] as nat));
            let p = ascii_bytes(decimal(a.port as nat));
            &&& split_first(b, 58) == Some((f0 + seq![46u8] + f1 + seq![46u8] + f2 + seq![46u8] + f3, p))
            &&& dotted_fields(f0 + seq![46u8] + f1 + seq![46u8] + f2 + seq![46u8] + f3) == Some(
                seq![f0, f1, f2, f3],
            )
        }),
{
    lemma_socket_text_bytes(a);
    let f0 = ascii_bytes(decimal(a.octets[0] as nat));
    let f1 = ascii_bytes(decimal(a.octets[1] as nat));
    let f2 = ascii_bytes(decimal(a.octets[2] as nat));
    let f3 = ascii_bytes(decimal(a.octets[3] as nat));
    let p = ascii_bytes(decimal(a.port as nat));
    lemma_decimal(a.octets[0] as nat);
    lemma_decimal(a.octets[1] as nat);
    lemma_decimal(a.octets[2] as nat);
    lemma_decimal(a.octets[3] as nat);
    lemma_decimal(a.port as nat);
    lemma_digits_no_sep(f0);
    lemma_digits_no_sep(f1);
    lemma_digits_no_sep(f2);
    lemma_digits_no_sep(f3);
    let dot = seq![46u8];
    let ip = f0 + dot + f1 + dot + f2 + dot + f3;
    assert forall|i: int| 0 <= i < ip.len() implies ip[i] != 58 by {
        let l0 = f0.len() as int;
        let l1 = l0 + 1 + f1.len();
        let l2 = l1 + 1 + f2.len();
        if i < l0 {
            assert(ip[i] == f0[i]);
        } else if i == l0 {
        } else if i < l1 {
            assert(ip[i] == f1[i - l0 - 1]);
        } else if i == l1 {
        } else if i < l2 {
            assert(ip[i] == f2[i - l1 - 1]);
        } else if i == l2 {
        } else {
            assert(ip[i] == f3[i - l2 - 1]);
        }
    }
    lemma_split_first_at(ip, 58, p);
    let r0 = f1 + dot + f2 + dot + f3;
    assert(ip =~= f0 + dot + r0);
    lemma_split_first_at(f0, 46, r0);
    let r1 = f2 + dot + f3;
    assert(r0 =~= f1 + dot + r1);
    lemma_split_first_at(f1, 46, r1);
    lemma_split_first_at(f2, 46, f3);
}

/// The decimal notation of an octet is a field that Rust's standard library
/// reads, as that octet.
proof fn lemma_octet_text(o: u8)
    ensures
        std_octet(ascii_bytes(decimal(o as nat))),
        digits_value(ascii_bytes(decimal(o as nat))) == o,
{
    lemma_decimal(o as nat);
}

/// The decimal notation of a port is a port that Rust's standard library
/// reads, as that port.
proof fn lemma_port_text(p: u16)
    ensures
        std_port(ascii_bytes(decimal(p as nat))),
        digits_value(ascii_bytes(decimal(p as nat))) == p,
{
    lemma_decimal(p as nat);
}

/// The text form of a socket address is read back as the same address.
pub proof fn lemma_socket_text_roundtrip(a: SocketAddrView)
    requires
        a.octets.len() == 4,
    ensures
        is_ascii_chars(socket_text(a)),
        std_socket_addr(encode_utf8(socket_text(a))) == Some(a),
{
    lemma_socket_text_bytes(a);
    lemma_socket_text_split(a);
    let f0 = ascii_bytes(decimal(a.octets[0] as nat));
    let f1 = ascii_bytes(decimal(a.octets[1] as nat));
    let f2 = ascii_bytes(decimal(a.octets[2] as nat));
    let f3 = ascii_bytes(decimal(a.octets[3] as nat));
    let p = ascii_bytes(decimal(a.port as nat));
    lemma_octet_text(a.octets[0]);
    lemma_octet_text(a.octets[1]);
    lemma_octet_text(a.octets[2]);
    lemma_octet_text(a.octets[3]);
    lemma_port_text(a.port);
    let r = std_socket_addr(encode_utf8(socket_text(a)));
    assert(r == Some(
        SocketAddrView {
            octets: seq![
                digits_value(f0) as u8,
                digits_value(f1) as u8,
                digits_value(f2) as u8,
                digits_value(f3) as u8,
            ],
            port: digits_value(p) as u16,
        },
    ));
    assert(r->0.octets =~= a.octets);
}

} // verus!
