//! Reading socket addresses the lenient way: each number as `str::parse`
//! reads it, so with an optional `+` and any number of leading zeros.
use vstd::prelude::*;
use vstd::string::*;
use vstd::utf8::encode_utf8;

use crate::error::{parsing_error, result_is, Error};
use crate::socket::{socket_text, SocketAddrV4, SocketAddrView};
use crate::text::{
    all_digits, ascii_bytes, decimal, digits_value, dotted_fields, find_byte, find_dots, is_digit,
    lemma_decimal, lemma_split_first_parts, parse_std_unsigned, split_first, std_unsigned,
};
use crate::util::{lemma_address_parts, lemma_socket_text_split};

verus! {

/// The socket address that the text with the bytes `b` stands for when it is
/// split at its first colon and at the first three dots before it, and each
/// part is read as `str::parse` reads a `u8` (the octets) or a `u16` (the
/// port).
pub open spec fn lenient_socket_addr(b: Seq<u8>) -> Option<SocketAddrView> {
    match split_first(b, 58) {
        None => None,
        Some((ip, port)) => match dotted_fields(ip) {
            None => None,
            Some(f) => match (
                std_unsigned(f[0], 255),
                std_unsigned(f[1], 255),
                std_unsigned(f[2], 255),
                std_unsigned(f[3], 255),
                std_unsigned(port, 65535),
            ) {
                (Some(a0), Some(a1), Some(a2), Some(a3), Some(p)) => Some(
                    SocketAddrView { octets: seq![a0 as u8, a1 as u8, a2 as u8, a3 as u8], port: p as u16 },
                ),
                _ => None,
            },
        },
    }
}

/// Whether `f` is the run of decimal digits `d`, with or without a `+`
/// before it.
pub open spec fn signed_run(f: Seq<u8>, d: Seq<u8>) -> bool {
    &&& d.len() >= 1
    &&& all_digits(d)
    &&& (f == d || f == seq![43u8] + d)
}

/// What the lenient reader of socket addresses accepts: text made of four
/// fields separated by dots, a colon and a port, each a run of decimal
/// digits with or without a `+` before it, where the runs stand for the four
/// octets and the port of the address it gives. In particular no field
/// stands for more than 255, and text with such a field is refused.
pub proof fn lemma_lenient_socket_addr_fields(b: Seq<u8>) -> (parts: (
    Seq<Seq<u8>>,
    Seq<Seq<u8>>,
))
    requires
        lenient_socket_addr(b) is Some,
    ensures
        ({
            let a = lenient_socket_addr(b)->0;
            let (f, d) = parts;
            &&& f.len() == 5 && d.len() == 5
            &&& b == f[0] + seq![46u8] + f[1] + seq![46u8] + f[2] + seq![46u8] + f[3] + seq![58u8]
                + f[4]
            &&& forall|i: int| 0 <= i < 5 ==> signed_run(#[trigger] f[i], d[i])
            &&& forall|i: int| 0 <= i < 4 ==> digits_value(#[trigger] d[i]) <= 255
            &&& digits_value(d[4]) <= 65535
            &&& a.octets.len() == 4
            &&& forall|i: int| 0 <= i < 4 ==> #[trigger] a.octets[i] as nat == digits_value(d[i])
            &&& a.port as nat == digits_value(d[4])
        }),
{
    let a = lenient_socket_addr(b)->0;
    let (ip, port) = split_first(b, 58)->0;
    let f = dotted_fields(ip)->0;
    let fs = lemma_address_parts(b);
    assert(fs[0] == fs.take(4)[0] && fs[1] == fs.take(4)[1]);
    assert(fs[2] == fs.take(4)[2] && fs[3] == fs.take(4)[3]);
    assert(fs[0] == f[0] && fs[1] == f[1] && fs[2] == f[2] && fs[3] == f[3] && fs[4] == port);
    let o = (
        std_unsigned(f[0], 255),
        std_unsigned(f[1], 255),
        std_unsigned(f[2], 255),
        std_unsigned(f[3], 255),
        std_unsigned(port, 65535),
    );
    assert(o.0 is Some && o.1 is Some && o.2 is Some && o.3 is Some && o.4 is Some);
    assert(a == SocketAddrView {
        octets: seq![o.0->0 as u8, o.1->0 as u8, o.2->0 as u8, o.3->0 as u8],
        port: o.4->0 as u16,
    });
    let d0 = lemma_signed_run(fs[0], 255);
    let d1 = lemma_signed_run(fs[1], 255);
    let d2 = lemma_signed_run(fs[2], 255);
    let d3 = lemma_signed_run(fs[3], 255);
    let dp = lemma_signed_run(fs[4], 65535);
    let ds = seq![d0, d1, d2, d3, dp];
    assert forall|i: int| 0 <= i < 5 implies signed_run(#[trigger] fs[i], ds[i]) by {
        if i == 0 {
        } else if i == 1 {
        } else if i == 2 {
        } else if i == 3 {
        } else {
        }
    }
    assert(a.octets[0] as nat == digits_value(d0));
    assert(a.octets[1] as nat == digits_value(d1));
    assert(a.octets[2] as nat == digits_value(d2));
    assert(a.octets[3] as nat == digits_value(d3));
    assert forall|i: int| 0 <= i < 4 implies #[trigger] a.octets[i] as nat == digits_value(
        ds[i],
    ) by {
        if i == 0 {
        } else if i == 1 {
        } else if i == 2 {
        } else {
        }
    }
    (fs, ds)
}

/// A number that `str::parse` reads is a signed run of digits.
proof fn lemma_signed_run(f: Seq<u8>, max: nat) -> (d: Seq<u8>)
    requires
        std_unsigned(f, max) is Some,
    ensures
        signed_run(f, d),
        digits_value(d) == std_unsigned(f, max)->0,
        digits_value(d) <= max,
{
    if f.len() >= 1 && f[0] == 43 {
        let d = f.skip(1);
        assert(f =~= seq![43u8] + d);
        d
    } else {
        f
    }
}

/// Parses text such as `127.0.0.1:12000` into a socket address, reading each
/// number as `str::parse` does. Text that is not such an address gives
/// `Error::Parsing` with the text and `SocketAddrV4`.
#[verifier::rlimit(40)]
pub fn parse_ipv4socket(s: &str) -> (r: Result<SocketAddrV4, Error>)
    ensures
        result_is(
            r,
            match lenient_socket_addr(s.spec_bytes()) {
                Some(a) => Ok(a),
                None => Err(parsing_error(s@, "SocketAddrV4"@)),
            },
        ),
{
    let b = s.as_bytes();
    let ghost bs = b@;
    let len = b.len();
    assert(bs.subrange(0, len as int) =~= bs);
    let err = Error::Parsing { from: s.to_owned(), to: "SocketAddrV4".to_owned() };
    let colon = match find_byte(b, 0, len, 58) {
        Some(i) => i,
        None => {
            return Err(err);
        },
    };
    assert(bs.take(colon as int) =~= bs.subrange(0, colon as int));
    assert(bs.skip(colon + 1) =~= bs.subrange(colon + 1, len as int));
    let port = match parse_std_unsigned(b, colon + 1, len, 65535) {
        Some(p) => p,
        None => {
            return Err(err);
        },
    };
    let (d1, d2, d3) = match find_dots(b, 0, colon) {
        Some(d) => d,
        None => {
            return Err(err);
        },
    };
    let o0 = parse_std_unsigned(b, 0, d1, 255);
    let o1 = parse_std_unsigned(b, d1 + 1, d2, 255);
    let o2 = parse_std_unsigned(b, d2 + 1, d3, 255);
    let o3 = parse_std_unsigned(b, d3 + 1, colon, 255);
    match (o0, o1, o2, o3) {
        (Some(a0), Some(a1), Some(a2), Some(a3)) => {
            let a = SocketAddrV4::new([a0 as u8, a1 as u8, a2 as u8, a3 as u8], port as u16);
            assert(a@.octets =~= lenient_socket_addr(bs)->0.octets);
            Ok(a)
        },
        _ => Err(err),
    }
}

/// The decimal notation of a number up to `max` is read by `str::parse` as
/// that number.
proof fn lemma_decimal_std_unsigned(n: nat, max: nat)
    requires
        n <= max,
    ensures
        std_unsigned(ascii_bytes(decimal(n)), max) == Some(n),
{
    lemma_decimal(n);
    let b = ascii_bytes(decimal(n));
    assert(is_digit(b[0]));
}

/// The text form of a socket address is read back as the same address.
pub proof fn lemma_lenient_text_roundtrip(a: SocketAddrView)
    requires
        a.octets.len() == 4,
    ensures
        lenient_socket_addr(encode_utf8(socket_text(a))) == Some(a),
{
    let b = encode_utf8(socket_text(a));
    let f0 = ascii_bytes(decimal(a.octets[0] as nat));
    let f1 = ascii_bytes(decimal(a.octets[1] as nat));
    let f2 = ascii_bytes(decimal(a.octets[2] as nat));
    let f3 = ascii_bytes(decimal(a.octets[3] as nat));
    let p = ascii_bytes(decimal(a.port as nat));
    let ip = f0 + seq![46u8] + f1 + seq![46u8] + f2 + seq![46u8] + f3;
    assert(split_first(b, 58) == Some((ip, p)) && dotted_fields(ip) == Some(seq![f0, f1, f2, f3]))
        by {
        lemma_socket_text_split(a);
    }
    assert(std_unsigned(f0, 255) == Some(a.octets[0] as nat)) by {
        lemma_decimal_std_unsigned(a.octets[0] as nat, 255);
    }
    assert(std_unsigned(f1, 255) == Some(a.octets[1] as nat)) by {
        lemma_decimal_std_unsigned(a.octets[1] as nat, 255);
    }
    assert(std_unsigned(f2, 255) == Some(a.octets[2] as nat)) by {
        lemma_decimal_std_unsigned(a.octets[2] as nat, 255);
    }
    assert(std_unsigned(f3, 255) == Some(a.octets[3] as nat)) by {
        lemma_decimal_std_unsigned(a.octets[3] as nat, 255);
    }
    assert(std_unsigned(p, 65535) == Some(a.port as nat)) by {
        lemma_decimal_std_unsigned(a.port as nat, 65535);
    }
    let r = lenient_socket_addr(b);
    assert(r->0.octets =~= a.octets);
}

} // verus!
