//! A compact text form for bytes: six bits per character, low bits first.
use vstd::prelude::*;

use crate::text::push_char;

verus! {

/// The character that stands for the six-bit value `v`: digits, then lower-case
/// letters, then upper-case letters, then `-` and `_`.
pub open spec fn sextet_char(v: int) -> char {
    if v < 10 {
        (48 + v) as char
    } else if v < 36 {
        (97 + v - 10) as char
    } else if v < 62 {
        (65 + v - 36) as char
    } else if v == 62 {
        '-'
    } else {
        '_'
    }
}

/// The characters of three bytes: the low six bits of the first; its top two
/// bits under the low four bits of the second; the top four bits of the
/// second under the low two bits of the third; the top six bits of the third.
pub open spec fn triple_text(b0: u8, b1: u8, b2: u8) -> Seq<char> {
    seq![
        sextet_char(b0 as int % 64),
        sextet_char((b1 as int % 16) * 4 + b0 as int / 64),
        sextet_char((b2 as int % 4) * 16 + b1 as int / 16),
        sextet_char(b2 as int / 4),
    ]
}

/// The characters of the last one or two bytes, when the length is not a
/// multiple of three: the bits of an incomplete last character are dropped.
pub open spec fn tail_text(s: Seq<u8>) -> Seq<char> {
    if s.len() == 0 {
        seq![]
    } else if s.len() == 1 {
        seq![sextet_char(s[0] as int % 64)]
    } else {
        seq![sextet_char(s[0] as int % 64), sextet_char((s[1] as int % 16) * 4 + s[0] as int / 64)]
    }
}

/// The text of `bytes`: the characters of each group of three bytes, then
/// those of the remaining bytes.
pub open spec fn base64_text(s: Seq<u8>) -> Seq<char>
    decreases s.len(),
{
    if s.len() < 3 {
        tail_text(s)
    } else {
        triple_text(s[0], s[1], s[2]) + base64_text(s.skip(3))
    }
}

/// The text of bytes whose first part is a whole number of groups.
proof fn lemma_text_concat(a: Seq<u8>, b: Seq<u8>)
    requires
        a.len() % 3 == 0,
    ensures
        base64_text(a + b) == base64_text(a) + base64_text(b),
    decreases a.len(),
{
    if a.len() == 0 {
        assert(a + b =~= b);
        assert(base64_text(a) =~= seq![]);
        assert(base64_text(a) + base64_text(b) =~= base64_text(b));
    } else {
        lemma_text_concat(a.skip(3), b);
        assert((a + b).skip(3) =~= a.skip(3) + b);
        assert(base64_text(a + b) =~= triple_text(a[0], a[1], a[2]) + base64_text(a.skip(3) + b));
    }
}

/// The character for a six-bit value.
fn sextet_to_char(v: u8) -> (c: char)
    requires
        v < 64,
    ensures
        c == sextet_char(v as int),
{
    if v < 10 {
        (48 + v) as char
    } else if v < 36 {
        (97 + v - 10) as char
    } else if v < 62 {
        (65 + v - 36) as char
    } else if v == 62 {
        '-'
    } else {
        '_'
    }
}

/// Formats bytes as text with six bits per character, taken from the low
/// bits of each byte upwards. A length that is not a multiple of three leaves
/// the top bits of the last byte out.
pub fn format_base64(bytes: &[u8]) -> (string: String)
    ensures
        string@ == base64_text(bytes@),
{
    let mut string = String::new();
    let mut trailing: u8 = 0;
    let mut step: u8 = 0;
    let mut i: usize = 0;
    let ghost s = bytes@;
    while i < bytes.len()
        invariant
            s == bytes@,
            i <= s.len(),
            step as int == i % 3,
            step == 1 ==> trailing == s[i - 1] / 64,
            step == 2 ==> trailing == s[i - 1] / 16,
            string@ == base64_text(s.take(i - step)) + tail_text(s.subrange(i - step, i as int)),
        decreases s.len() - i,
    {
        let b = bytes[i];
        let ghost done = s.take(i - step);
        if step == 0 {
            push_char(&mut string, sextet_to_char(b % 64));
            trailing = b / 64;
            step = 1;
            proof {
                assert(s.subrange(i - 0, i as int) =~= seq![]);
                assert(s.subrange(i as int, i + 1) =~= seq![b]);
                assert(s.take(i + 1 - 1) =~= done);
            }
        } else if step == 1 {
            push_char(&mut string, sextet_to_char((b % 16) * 4 + trailing));
            trailing = b / 16;
            step = 2;
            proof {
                assert(s.subrange(i - 1, i + 1) =~= seq![s[i - 1], b]);
                assert(s.take(i + 1 - 2) =~= done);
            }
        } else {
            push_char(&mut string, sextet_to_char((b % 4) * 16 + trailing));
            push_char(&mut string, sextet_to_char(b / 4));
            step = 0;
            proof {
                let g = s.subrange(i - 2, i + 1);
                assert(g =~= seq![s[i - 2], s[i - 1], b]);
                assert(s.take(i + 1) =~= done + g);
                lemma_text_concat(done, g);
                assert(g.skip(3).len() == 0);
                assert(base64_text(g.skip(3)) =~= seq![]);
                assert(base64_text(g) =~= triple_text(s[i - 2], s[i - 1], b));
                assert(s.subrange(i + 1, i + 1) =~= seq![]);
            }
        }
        i = i + 1;
    }
    proof {
        let done = s.take(i - step);
        let rest = s.subrange(i - step, i as int);
        assert(s =~= done + rest);
        lemma_text_concat(done, rest);
        assert(base64_text(rest) == tail_text(rest));
        assert(s.take(i as int) =~= s);
    }
    string
}

} // verus!
