//! Text building blocks shared by the parsers and formatters: decimal digits,
//! Rust's grammar for unsigned integers, and searching for separators.
use vstd::prelude::*;
use vstd::utf8::is_ascii_chars;

verus! {

/// Whether `b` is the ASCII code of a decimal digit.
pub open spec fn is_digit(b: u8) -> bool {
    48 <= b <= 57
}

/// Whether every byte of `s` is a decimal digit.
pub open spec fn all_digits(s: Seq<u8>) -> bool {
    forall|i: int| 0 <= i < s.len() ==> is_digit(#[trigger] s[i])
}

/// The number that the decimal digits `s` stand for (0 for no digits).
pub open spec fn digits_value(s: Seq<u8>) -> nat
    decreases s.len(),
{
    if s.len() == 0 {
        0
    } else {
        digits_value(s.drop_last()) * 10 + (s.last() - 48) as nat
    }
}

/// What Rust's `str::parse` gives for an unsigned integer type whose largest
/// value is `max`: an optional `+`, then at least one decimal digit, with a
/// value of at most `max`.
pub open spec fn std_unsigned(s: Seq<u8>, max: nat) -> Option<nat> {
    let digits = if s.len() >= 1 && s[0] == 43 {
        s.skip(1)
    } else {
        s
    };
    if digits.len() >= 1 && all_digits(digits) && digits_value(digits) <= max {
        Some(digits_value(digits))
    } else {
        None
    }
}

/// Whether `i` is the index of the first occurrence of `c` in `s`.
pub open spec fn is_first(s: Seq<u8>, c: u8, i: int) -> bool {
    &&& 0 <= i < s.len()
    &&& s[i] == c
    &&& forall|j: int| 0 <= j < i ==> s[j] != c
}

/// The index of the first occurrence of `c` in `s`, or -1 if there is none.
pub open spec fn first_index(s: Seq<u8>, c: u8) -> int {
    if exists|i: int| is_first(s, c, i) {
        choose|i: int| is_first(s, c, i)
    } else {
        -1
    }
}

/// What `str::split_once` with a one-byte separator gives: the parts before
/// and after the first occurrence of `c`, if there is one.
pub open spec fn split_first(s: Seq<u8>, c: u8) -> Option<(Seq<u8>, Seq<u8>)> {
    let i = first_index(s, c);
    if i < 0 {
        None
    } else {
        Some((s.take(i), s.skip(i + 1)))
    }
}

/// Where `split_first` splits, the text is the first part, the separator and
/// the second part, and the separator does not occur in the first part.
pub proof fn lemma_split_first_parts(s: Seq<u8>, c: u8)
    requires
        split_first(s, c) is Some,
    ensures
        ({
            let (pre, post) = split_first(s, c)->0;
            &&& s == pre + seq![c] + post
            &&& forall|j: int| 0 <= j < pre.len() ==> #[trigger] pre[j] != c
        }),
{
    let i = first_index(s, c);
    assert(is_first(s, c, i));
    assert(s =~= s.take(i) + seq![c] + s.skip(i + 1));
}

/// The first occurrence of a byte is unique.
pub proof fn lemma_first_unique(s: Seq<u8>, c: u8, i: int)
    requires
        is_first(s, c, i),
    ensures
        first_index(s, c) == i,
{
    let k = first_index(s, c);
    assert(is_first(s, c, k));
    if k < i {
        assert(s[k] != c);
    }
    if i < k {
        assert(s[i] != c);
    }
}

/// Without an occurrence of `c` there is no first one.
pub proof fn lemma_first_absent(s: Seq<u8>, c: u8)
    requires
        forall|j: int| 0 <= j < s.len() ==> s[j] != c,
    ensures
        first_index(s, c) == -1,
{
    if exists|i: int| is_first(s, c, i) {
        let i = choose|i: int| is_first(s, c, i);
        assert(s[i] != c);
    }
}

/// A longer run of digits stands for at least as large a number.
pub proof fn lemma_digits_value_prefix(s: Seq<u8>, k: int)
    requires
        all_digits(s),
        0 <= k <= s.len(),
    ensures
        digits_value(s.take(k)) <= digits_value(s),
    decreases s.len() - k,
{
    if k < s.len() {
        lemma_digits_value_prefix(s, k + 1);
        assert(s.take(k + 1).drop_last() =~= s.take(k));
        assert(is_digit(s[k]));
    } else {
        assert(s.take(k) =~= s);
    }
}

/// The value of digits extended by one more digit.
pub proof fn lemma_digits_value_push(s: Seq<u8>, k: int)
    requires
        0 <= k < s.len(),
    ensures
        digits_value(s.take(k + 1)) == digits_value(s.take(k)) * 10 + (s[k] - 48) as nat,
{
    assert(s.take(k + 1).drop_last() =~= s.take(k));
}

/// The decimal digits in `s[start..end]`, as Rust's grammar for an unsigned
/// integer without sign reads them: the value if it is at most `max`.
pub fn parse_digits(s: &[u8], start: usize, end: usize, max: u64) -> (r: Option<u64>)
    requires
        start <= end <= s@.len(),
        max <= u32::MAX,
    ensures
        ({
            let d = s@.subrange(start as int, end as int);
            r == (if d.len() >= 1 && all_digits(d) && digits_value(d) <= max {
                Some(digits_value(d) as u64)
            } else {
                None
            })
        }),
{
    let ghost d = s@.subrange(start as int, end as int);
    if start == end {
        return None;
    }
    let mut acc: u64 = 0;
    let mut i: usize = start;
    while i < end
        invariant
            start <= i <= end <= s@.len(),
            max <= u32::MAX,
            d == s@.subrange(start as int, end as int),
            all_digits(d.take(i - start)),
            acc == digits_value(d.take(i - start)),
            acc <= max,
        decreases end - i,
    {
        let b = s[i];
        proof {
            lemma_digits_value_push(d, i - start);
            assert(d[i - start] == b);
        }
        if b < 48 || b > 57 {
            assert(!is_digit(d[i - start]));
            return None;
        }
        acc = acc * 10 + (b - 48) as u64;
        proof {
            assert forall|j: int| 0 <= j < i + 1 - start implies is_digit(#[trigger] d.take(i + 1 - start)[j]) by {
                if j < i - start {
                    assert(d.take(i + 1 - start)[j] == d.take(i - start)[j]);
                }
            }
        }
        if acc > max {
            proof {
                if all_digits(d) {
                    lemma_digits_value_prefix(d, i + 1 - start);
                }
            }
            return None;
        }
        i = i + 1;
    }
    assert(d.take(end - start) =~= d);
    Some(acc)
}

/// Rust's `str::parse` for an unsigned integer type whose largest value is
/// `max`, on the bytes `s[start..end]`.
pub fn parse_std_unsigned(s: &[u8], start: usize, end: usize, max: u64) -> (r: Option<u64>)
    requires
        start <= end <= s@.len(),
        max <= u32::MAX,
    ensures
        r == (match std_unsigned(s@.subrange(start as int, end as int), max as nat) {
            Some(v) => Some(v as u64),
            None => None,
        }),
{
    let ghost d = s@.subrange(start as int, end as int);
    if start < end && s[start] == 43 {
        assert(d.skip(1) =~= s@.subrange(start + 1, end as int));
        parse_digits(s, start + 1, end, max)
    } else {
        parse_digits(s, start, end, max)
    }
}

/// The index of the first occurrence of `c` in `s[start..end]`, counted from
/// `start`, if there is one.
pub fn find_byte(s: &[u8], start: usize, end: usize, c: u8) -> (r: Option<usize>)
    requires
        start <= end <= s@.len(),
    ensures
        ({
            let t = s@.subrange(start as int, end as int);
            match r {
                Some(i) => i < t.len() && first_index(t, c) == i,
                None => first_index(t, c) == -1,
            }
        }),
{
    let ghost t = s@.subrange(start as int, end as int);
    let mut i: usize = start;
    while i < end
        invariant
            start <= i <= end <= s@.len(),
            t == s@.subrange(start as int, end as int),
            forall|j: int| 0 <= j < i - start ==> t[j] != c,
        decreases end - i,
    {
        if s[i] == c {
            proof {
                assert(is_first(t, c, i - start));
                lemma_first_unique(t, c, i - start);
            }
            return Some(i - start);
        }
        i = i + 1;
    }
    proof {
        lemma_first_absent(t, c);
    }
    None
}

/// Whether the two bytes `c c` stand at index `j` of `s`.
pub open spec fn pair_at(s: Seq<u8>, c: u8, j: int) -> bool {
    s[j] == c && s[j + 1] == c
}

/// Whether `i` is the index of the first occurrence of the two bytes `c c`
/// in `s`.
pub open spec fn is_first_pair(s: Seq<u8>, c: u8, i: int) -> bool {
    &&& 0 <= i && i + 1 < s.len()
    &&& pair_at(s, c, i)
    &&& forall|j: int| 0 <= j < i ==> !#[trigger] pair_at(s, c, j)
}

/// The index of the first occurrence of the two bytes `c c` in `s`, or -1 if
/// there is none.
pub open spec fn first_pair_index(s: Seq<u8>, c: u8) -> int {
    if exists|i: int| is_first_pair(s, c, i) {
        choose|i: int| is_first_pair(s, c, i)
    } else {
        -1
    }
}

/// The first occurrence of a pair of bytes is unique.
pub proof fn lemma_first_pair_unique(s: Seq<u8>, c: u8, i: int)
    requires
        is_first_pair(s, c, i),
    ensures
        first_pair_index(s, c) == i,
{
    let k = first_pair_index(s, c);
    assert(is_first_pair(s, c, k));
    if k < i {
        assert(!pair_at(s, c, k));
    }
    if i < k {
        assert(!pair_at(s, c, i));
    }
}

/// The index of the first occurrence of the two bytes `c c` in `s`.
pub fn find_pair(s: &[u8], c: u8) -> (r: Option<usize>)
    ensures
        match r {
            Some(i) => first_pair_index(s@, c) == i,
            None => first_pair_index(s@, c) == -1,
        },
{
    let mut i: usize = 0;
    while i < s.len() && i + 1 < s.len()
        invariant
            i <= s@.len(),
            forall|j: int| 0 <= j < i ==> !#[trigger] pair_at(s@, c, j),
        decreases s@.len() - i,
    {
        if s[i] == c && s[i + 1] == c {
            proof {
                assert(is_first_pair(s@, c, i as int));
                lemma_first_pair_unique(s@, c, i as int);
            }
            return Some(i);
        }
        i = i + 1;
    }
    proof {
        if exists|k: int| is_first_pair(s@, c, k) {
            let k = choose|k: int| is_first_pair(s@, c, k);
            assert(!pair_at(s@, c, k));
        }
    }
    None
}

/// The four dot-separated fields of an IPv4 address as `str::split_once`
/// finds them: the parts before the first, second and third dot, and all that
/// follows the third.
pub open spec fn dotted_fields(ip: Seq<u8>) -> Option<Seq<Seq<u8>>> {
    match split_first(ip, 46) {
        None => None,
        Some((f0, r0)) => match split_first(r0, 46) {
            None => None,
            Some((f1, r1)) => match split_first(r1, 46) {
                None => None,
                Some((f2, f3)) => Some(seq![f0, f1, f2, f3]),
            },
        },
    }
}

/// The positions of the dots that separate the four fields of an IPv4
/// address in `s[start..end]`.
pub fn find_dots(s: &[u8], start: usize, end: usize) -> (r: Option<(usize, usize, usize)>)
    requires
        start <= end <= s@.len(),
    ensures
        ({
            let ip = s@.subrange(start as int, end as int);
            match r {
                Some((d1, d2, d3)) => {
                    &&& start <= d1 < d2 < d3 < end
                    &&& dotted_fields(ip) == Some(
                        seq![
                            s@.subrange(start as int, d1 as int),
                            s@.subrange(d1 + 1, d2 as int),
                            s@.subrange(d2 + 1, d3 as int),
                            s@.subrange(d3 + 1, end as int),
                        ],
                    )
                },
                None => dotted_fields(ip) is None,
            }
        }),
{
    let ghost ip = s@.subrange(start as int, end as int);
    let i1 = match find_byte(s, start, end, 46) {
        Some(i) => i,
        None => {
            return None;
        },
    };
    let d1 = start + i1;
    let ghost r0 = ip.skip(i1 + 1);
    assert(r0 =~= s@.subrange(d1 + 1, end as int));
    assert(ip.take(i1 as int) =~= s@.subrange(start as int, d1 as int));
    let i2 = match find_byte(s, d1 + 1, end, 46) {
        Some(i) => i,
        None => {
            return None;
        },
    };
    let d2 = d1 + 1 + i2;
    let ghost r1 = r0.skip(i2 + 1);
    assert(r1 =~= s@.subrange(d2 + 1, end as int));
    assert(r0.take(i2 as int) =~= s@.subrange(d1 + 1, d2 as int));
    let i3 = match find_byte(s, d2 + 1, end, 46) {
        Some(i) => i,
        None => {
            return None;
        },
    };
    let d3 = d2 + 1 + i3;
    assert(r1.skip(i3 + 1) =~= s@.subrange(d3 + 1, end as int));
    assert(r1.take(i3 as int) =~= s@.subrange(d2 + 1, d3 as int));
    Some((d1, d2, d3))
}

/// The character of a decimal digit.
pub open spec fn digit_char(d: nat) -> char {
    if d == 0 {
        '0'
    } else if d == 1 {
        '1'
    } else if d == 2 {
        '2'
    } else if d == 3 {
        '3'
    } else if d == 4 {
        '4'
    } else if d == 5 {
        '5'
    } else if d == 6 {
        '6'
    } else if d == 7 {
        '7'
    } else if d == 8 {
        '8'
    } else {
        '9'
    }
}

/// The shortest decimal notation of `n`.
pub open spec fn decimal(n: nat) -> Seq<char>
    decreases n,
{
    if n < 10 {
        seq![digit_char(n)]
    } else {
        decimal(n / 10).push(digit_char(n % 10))
    }
}

/// `String::push`: appends one character.
#[verifier::external_body]
pub(crate) fn push_char(s: &mut String, c: char)
    ensures
        final(s)@ == old(s)@.push(c),
{
    s.push(c)
}

/// The character of the digit `d` (below 10).
pub fn digit_to_char(d: u64) -> (c: char)
    requires
        d < 10,
    ensures
        c == digit_char(d as nat),
{
    if d == 0 {
        '0'
    } else if d == 1 {
        '1'
    } else if d == 2 {
        '2'
    } else if d == 3 {
        '3'
    } else if d == 4 {
        '4'
    } else if d == 5 {
        '5'
    } else if d == 6 {
        '6'
    } else if d == 7 {
        '7'
    } else if d == 8 {
        '8'
    } else {
        '9'
    }
}

/// Appends the decimal notation of `n`.
pub fn push_decimal(s: &mut String, n: u64)
    ensures
        final(s)@ == old(s)@ + decimal(n as nat),
    decreases n,
{
    if n >= 10 {
        push_decimal(s, n / 10);
    }
    push_char(s, digit_to_char(n % 10));
    proof {
        if n >= 10 {
            assert(decimal(n as nat) == decimal((n / 10) as nat).push(digit_char((n % 10) as nat)));
        } else {
            assert(decimal(n as nat) == seq![digit_char(n as nat)]);
        }
    }
}

/// The bytes of ASCII characters.
pub open spec fn ascii_bytes(s: Seq<char>) -> Seq<u8> {
    s.map_values(|c: char| c as u8)
}

/// The bytes of two runs of characters are those of the first, then those
/// of the second.
pub proof fn lemma_ascii_bytes_concat(a: Seq<char>, b: Seq<char>)
    ensures
        ascii_bytes(a + b) == ascii_bytes(a) + ascii_bytes(b),
{
    assert(ascii_bytes(a + b) =~= ascii_bytes(a) + ascii_bytes(b));
}

/// The byte of the character of a digit.
pub proof fn lemma_digit_char(d: nat)
    requires
        d < 10,
    ensures
        digit_char(d) as u8 == 48 + d,
        '\0' <= digit_char(d) <= '\u{7f}',
{
    if d == 0 {
        assert('0' as u8 == 48);
    } else if d == 1 {
        assert('1' as u8 == 49);
    } else if d == 2 {
        assert('2' as u8 == 50);
    } else if d == 3 {
        assert('3' as u8 == 51);
    } else if d == 4 {
        assert('4' as u8 == 52);
    } else if d == 5 {
        assert('5' as u8 == 53);
    } else if d == 6 {
        assert('6' as u8 == 54);
    } else if d == 7 {
        assert('7' as u8 == 55);
    } else if d == 8 {
        assert('8' as u8 == 56);
    } else {
        assert('9' as u8 == 57);
    }
}

/// The decimal notation of a number: ASCII digits, standing for the number,
/// without a leading zero, with at most three digits below 1000.
pub proof fn lemma_decimal(n: nat)
    ensures
        is_ascii_chars(decimal(n)),
        ascii_bytes(decimal(n)).len() == decimal(n).len(),
        decimal(n).len() >= 1,
        all_digits(ascii_bytes(decimal(n))),
        digits_value(ascii_bytes(decimal(n))) == n,
        n >= 1 ==> ascii_bytes(decimal(n))[0] != 48,
        n < 10 ==> decimal(n).len() == 1,
        n < 100 ==> decimal(n).len() <= 2,
        n < 1000 ==> decimal(n).len() <= 3,
        n < 10000 ==> decimal(n).len() <= 4,
        n < 100000 ==> decimal(n).len() <= 5,
    decreases n,
{
    let d = decimal(n);
    let b = ascii_bytes(d);
    if n < 10 {
        lemma_digit_char(n);
        assert(d == seq![digit_char(n)]);
        assert(b =~= seq![digit_char(n) as u8]);
        assert(b.drop_last() =~= Seq::<u8>::empty());
        assert(digits_value(b.drop_last()) == 0);
        assert(b.last() == 48 + n);
        assert(digits_value(b) == digits_value(b.drop_last()) * 10 + (b.last() - 48) as nat);
    } else {
        lemma_decimal(n / 10);
        lemma_digit_char(n % 10);
        assert((n / 10) * 10 + n % 10 == n);
        let p = decimal(n / 10);
        let c = digit_char(n % 10);
        assert(d == p.push(c));
        assert(b =~= ascii_bytes(p).push(c as u8));
        assert(b.drop_last() =~= ascii_bytes(p));
        assert(b.last() == 48 + n % 10);
        assert(digits_value(b) == digits_value(b.drop_last()) * 10 + (b.last() - 48) as nat);
        assert(is_ascii_chars(d)) by {
            assert forall|i: int| 0 <= i < d.len() implies '\0' <= #[trigger] d[i] <= '\u{7f}' by {
                if i < p.len() {
                    assert(d[i] == p[i]);
                }
            }
        }
        assert(all_digits(b)) by {
            assert forall|i: int| 0 <= i < b.len() implies is_digit(#[trigger] b[i]) by {
                if i < p.len() {
                    assert(b[i] == ascii_bytes(p)[i]);
                }
            }
        }
        assert(b[0] == ascii_bytes(p)[0]);
    }
}

/// Where a separator that does not occur in the first part stands between
/// two parts, `split_first` gives the two parts.
pub proof fn lemma_split_first_at(pre: Seq<u8>, c: u8, post: Seq<u8>)
    requires
        forall|i: int| 0 <= i < pre.len() ==> pre[i] != c,
    ensures
        split_first(pre + seq![c] + post, c) == Some((pre, post)),
{
    let s = pre + seq![c] + post;
    assert(is_first(s, c, pre.len() as int)) by {
        assert forall|j: int| 0 <= j < pre.len() implies s[j] != c by {
            assert(s[j] == pre[j]);
        }
    }
    lemma_first_unique(s, c, pre.len() as int);
    assert(s.take(pre.len() as int) =~= pre);
    assert(s.skip(pre.len() as int + 1) =~= post);
}

} // verus!
