//! Bytes as hexadecimal text, and back.

use crate::bytes;
use crate::text;
use vstd::prelude::*;

verus! {

/// The lower-case digit of a value below sixteen.
pub open spec fn hex_digit(n: int) -> char {
    if n < 10 {
        (48 + n) as char
    } else {
        (87 + n) as char
    }
}

/// The two digits of a byte.
pub open spec fn hex_pair(b: u8) -> Seq<char> {
    seq![hex_digit(b as int / 16), hex_digit(b as int % 16)]
}

/// Two digits for each byte, in order.
pub open spec fn hex_of(b: Seq<u8>) -> Seq<char>
    decreases b.len(),
{
    if b.len() == 0 {
        seq![]
    } else {
        hex_of(b.drop_last()) + hex_pair(b.last())
    }
}

/// The value of a digit in either case.
pub open spec fn digit_value(c: char) -> Option<int> {
    if '0' <= c && c <= '9' {
        Some(c as int - 48)
    } else if 'a' <= c && c <= 'f' {
        Some(c as int - 87)
    } else if 'A' <= c && c <= 'F' {
        Some(c as int - 55)
    } else {
        None
    }
}

/// The byte that two characters spell. A plus sign may stand in front of a lone digit.
pub open spec fn pair_value(a: char, b: char) -> Option<u8> {
    match digit_value(b) {
        None => None,
        Some(low) => if a == '+' {
            Some(low as u8)
        } else {
            match digit_value(a) {
                None => None,
                Some(high) => Some((16 * high + low) as u8),
            }
        },
    }
}

/// The bytes that `s` spells, two characters each; none where some pair spells nothing.
pub open spec fn unhex_of(s: Seq<char>) -> Option<Seq<u8>>
    decreases s.len(),
{
    if s.len() == 0 {
        Some(seq![])
    } else if s.len() == 1 {
        None
    } else {
        match (unhex_of(s.take(s.len() - 2)), pair_value(s[s.len() - 2], s[s.len() - 1])) {
            (Some(front), Some(b)) => Some(front.push(b)),
            _ => None,
        }
    }
}

/// The thirty-two bytes that `s` spells, if it spells that many.
pub open spec fn unhex_32(s: Seq<char>) -> Option<Seq<u8>> {
    match unhex_of(s) {
        Some(b) => if b.len() == 32 {
            Some(b)
        } else {
            None
        },
        None => None,
    }
}

/// What was written in hexadecimal is read back.
pub proof fn law_hex_round_trip(b: Seq<u8>)
    ensures
        unhex_of(hex_of(b)) == Some(b),
        hex_of(b).len() == 2 * b.len(),
    decreases b.len(),
{
    if b.len() > 0 {
        let front = b.drop_last();
        law_hex_round_trip(front);
        let s = hex_of(b);
        assert(s.take(s.len() - 2) =~= hex_of(front));
        assert(front.push(b.last()) =~= b);
    } else {
        assert(b =~= seq![]);
    }
}

/// Each byte is written as two of the sixteen digits: the one for its sixteens, and the one for
/// what is over.
pub proof fn law_hex_digits(b: Seq<u8>, i: int)
    requires
        0 <= i < b.len(),
    ensures
        hex_of(b).len() == 2 * b.len(),
        hex_of(b)[2 * i] == "0123456789abcdef"@[b[i] as int / 16],
        hex_of(b)[2 * i + 1] == "0123456789abcdef"@[b[i] as int % 16],
    decreases b.len(),
{
    law_hex_round_trip(b);
    law_hex_round_trip(b.drop_last());
    reveal_strlit("0123456789abcdef");
    if i < b.len() - 1 {
        law_hex_digits(b.drop_last(), i);
    } else {
        assert(hex_of(b)[2 * i] == hex_digit(b[i] as int / 16));
        assert(hex_of(b)[2 * i + 1] == hex_digit(b[i] as int % 16));
    }
}

/// `c` is a digit for `d`, in lower or upper case.
pub open spec fn stands_for(c: char, d: int) -> bool {
    0 <= d < 16 && (c == "0123456789abcdef"@[d] || c == "0123456789ABCDEF"@[d])
}

/// Which character stands for which value.
proof fn lemma_stands_for(c: char, d: int)
    ensures
        stands_for(c, d) <==> digit_value(c) == Some(d),
{
    reveal_strlit("0123456789abcdef");
    reveal_strlit("0123456789ABCDEF");
}

/// Two characters spell a byte exactly where the second is a digit, and the first a digit or a
/// plus sign: sixteen for each that the first stands for, and what the second stands for.
pub proof fn law_pair_spelled(a: char, b: char, byte: u8)
    ensures
        pair_value(a, b) == Some(byte) <==> (a == '+' && stands_for(b, byte as int)) || (exists|
            high: int,
            low: int,
        | #[trigger] stands_for(a, high) && #[trigger] stands_for(b, low) && byte == 16 * high
            + low),
{
    lemma_stands_for(b, byte as int);
    if pair_value(a, b) == Some(byte) {
        let low = digit_value(b)->0;
        lemma_stands_for(b, low);
        if a != '+' {
            let high = digit_value(a)->0;
            lemma_stands_for(a, high);
            assert(stands_for(a, high) && stands_for(b, low) && byte == 16 * high + low);
        }
    }
    if exists|high: int, low: int| #[trigger]
        stands_for(a, high) && #[trigger] stands_for(b, low) && byte == 16 * high + low {
        let (high, low) = choose|high: int, low: int| #[trigger]
            stands_for(a, high) && #[trigger] stands_for(b, low) && byte == 16 * high + low;
        lemma_stands_for(a, high);
        lemma_stands_for(b, low);
    }
}

/// A text spells bytes exactly where it has two characters for each of them, and each two spell
/// their byte.
pub proof fn law_unhex(s: Seq<char>, b: Seq<u8>)
    ensures
        unhex_of(s) == Some(b) <==> {
            &&& s.len() == 2 * b.len()
            &&& forall|i: int|
                0 <= i < b.len() ==> pair_value(s[2 * i], s[2 * i + 1]) == Some(#[trigger] b[i])
        },
    decreases s.len(),
{
    if s.len() == 0 {
        if b.len() == 0 {
            assert(b =~= seq![]);
        }
    } else if s.len() == 1 {
    } else {
        let n = s.len() - 2;
        let front = s.take(n);
        if b.len() > 0 {
            law_unhex(front, b.drop_last());
        }
        if unhex_of(s) == Some(b) {
            assert(b.drop_last() =~= unhex_of(front)->0);
            assert forall|i: int| 0 <= i < b.len() implies pair_value(s[2 * i], s[2 * i + 1])
                == Some(#[trigger] b[i]) by {
                if i < b.len() - 1 {
                    assert(b.drop_last()[i] == b[i]);
                }
            }
        }
        if s.len() == 2 * b.len() && forall|i: int|
            0 <= i < b.len() ==> pair_value(s[2 * i], s[2 * i + 1]) == Some(#[trigger] b[i]) {
            let d = b.drop_last();
            assert forall|i: int| 0 <= i < d.len() implies pair_value(
                front[2 * i],
                front[2 * i + 1],
            ) == Some(#[trigger] d[i]) by {
                assert(d[i] == b[i]);
            }
            assert(unhex_of(front) == Some(d));
            let last = b[b.len() - 1];
            assert(pair_value(s[n], s[n + 1]) == Some(last));
            assert(d.push(last) =~= b);
        }
    }
}

/// Thirty-two bytes are read exactly where the text spells bytes and there are thirty-two.
pub proof fn law_unhex_32(s: Seq<char>, b: Seq<u8>)
    ensures
        unhex_32(s) == Some(b) <==> unhex_of(s) == Some(b) && b.len() == 32,
{
}

/// A UUID in form: the first sixteen bytes in upper case, with four dashes.
pub open spec fn uuid_text(seed: Seq<u8>) -> Seq<char> {
    let h = upper(hex_of(seed.take(16)));
    h.subrange(0, 8) + "-"@ + h.subrange(8, 12) + "-"@ + h.subrange(12, 16) + "-"@ + h.subrange(
        16,
        20,
    ) + "-"@ + h.subrange(20, 32)
}

/// How many digits of a UUID stand in front of place `i`, which is no dash.
pub open spec fn digits_before(i: int) -> int {
    if i < 8 {
        i
    } else if i < 13 {
        i - 1
    } else if i < 18 {
        i - 2
    } else if i < 23 {
        i - 3
    } else {
        i - 4
    }
}

/// A UUID has 36 places. At 8, 13, 18 and 23 stand dashes, and at the others the digits of the
/// first sixteen bytes in upper case, the sixteens of each byte first.
pub proof fn law_uuid_form(seed: Seq<u8>, i: int)
    requires
        seed.len() >= 16,
        0 <= i < 36,
    ensures
        uuid_text(seed).len() == 36,
        if i == 8 || i == 13 || i == 18 || i == 23 {
            uuid_text(seed)[i] == '-'
        } else {
            let k = digits_before(i);
            let b = seed[k / 2] as int;
            uuid_text(seed)[i] == "0123456789ABCDEF"@[if k % 2 == 0 {
                b / 16
            } else {
                b % 16
            }]
        },
{
    let first = seed.take(16);
    law_hex_round_trip(first);
    reveal_strlit("-");
    reveal_strlit("0123456789ABCDEF");
    reveal_strlit("0123456789abcdef");
    if i == 8 || i == 13 || i == 18 || i == 23 {
    } else {
        let k = digits_before(i);
        law_hex_digits(first, k / 2);
        let h = upper(hex_of(first));
        assert(h.len() == 32);
        assert(uuid_text(seed)[i] == h[k]);
        assert(k == 2 * (k / 2) + k % 2);
        assert(h[k] == upper_char(hex_of(first)[k]));
    }
}

/// Text with its lower-case ASCII letters in upper case.
pub open spec fn upper(s: Seq<char>) -> Seq<char> {
    Seq::new(s.len(), |i: int| upper_char(s[i]))
}

/// An ASCII letter in upper case.
pub open spec fn upper_char(c: char) -> char {
    if 'a' <= c && c <= 'z' {
        (c as int - 32) as char
    } else {
        c
    }
}

/// The lower-case digit of `n`.
pub fn digit(n: u8) -> (r: char)
    requires
        n < 16,
    ensures
        r == hex_digit(n as int),
{
    if n < 10 {
        (48 + n) as char
    } else {
        (87 + n) as char
    }
}

/// Append the two digits of `b`.
pub fn push_pair(out: &mut String, b: u8)
    ensures
        final(out)@ == old(out)@ + hex_pair(b),
{
    out.push(digit(b / 16));
    out.push(digit(b % 16));
    assert(out@ =~= old(out)@ + hex_pair(b));
}

/// Two lower-case digits for each byte.
pub fn hex(bytes: &[u8]) -> (r: String)
    ensures
        r@ == hex_of(bytes@),
        unhex_of(r@) == Some(bytes@),
{
    let mut out = String::new();
    let mut i: usize = 0;
    assert(bytes@.take(0) =~= seq![]);
    while i < bytes.len()
        invariant
            i <= bytes@.len(),
            out@ == hex_of(bytes@.take(i as int)),
        decreases bytes@.len() - i,
    {
        assert(bytes@.take(i + 1).drop_last() =~= bytes@.take(i as int));
        push_pair(&mut out, bytes[i]);
        i += 1;
    }
    assert(bytes@.take(bytes@.len() as int) =~= bytes@);
    proof {
        law_hex_round_trip(bytes@);
    }
    out
}

fn value_of(c: char) -> (r: Option<u8>)
    ensures
        match r {
            Some(v) => digit_value(c) == Some(v as int) && v < 16,
            None => digit_value(c) is None,
        },
{
    if '0' <= c && c <= '9' {
        Some((c as u32 - 48) as u8)
    } else if 'a' <= c && c <= 'f' {
        Some((c as u32 - 87) as u8)
    } else if 'A' <= c && c <= 'F' {
        Some((c as u32 - 55) as u8)
    } else {
        None
    }
}

fn byte_of(a: char, b: char) -> (r: Option<u8>)
    ensures
        r == pair_value(a, b),
{
    match value_of(b) {
        None => None,
        Some(low) => {
            if a == '+' {
                return Some(low);
            }
            match value_of(a) {
                None => None,
                Some(high) => Some(16 * high + low),
            }
        },
    }
}

/// A pair that spells nothing spoils whatever follows it.
proof fn lemma_spoiled(s: Seq<char>, n: int)
    requires
        0 <= n <= s.len(),
        n % 2 == 0,
        unhex_of(s.take(n)) is None,
    ensures
        unhex_of(s) is None,
    decreases s.len() - n,
{
    if s.len() % 2 == 1 {
        lemma_odd(s);
    } else if n < s.len() {
        assert(s.take(n + 2).take(n) =~= s.take(n));
        lemma_spoiled(s, n + 2);
    } else {
        assert(s.take(n) =~= s);
    }
}

/// An odd number of characters spells nothing.
proof fn lemma_odd(s: Seq<char>)
    requires
        s.len() % 2 == 1,
    ensures
        unhex_of(s) is None,
    decreases s.len(),
{
    if s.len() > 1 {
        lemma_odd(s.take(s.len() - 2));
    }
}

/// The bytes that `s` spells, or none where it is not pairs of hexadecimal digits.
pub fn unhex(s: &str) -> (r: Option<Vec<u8>>)
    ensures
        match r {
            Some(b) => unhex_of(s@) == Some(b@),
            None => unhex_of(s@) is None,
        },
{
    let chars = text::chars_of(s);
    if chars.len() % 2 != 0 {
        proof {
            lemma_odd(s@);
        }
        return None;
    }
    let mut out: Vec<u8> = Vec::new();
    let mut i: usize = 0;
    assert(s@.take(0) =~= seq![]);
    assert(out@ =~= seq![]);
    while i < chars.len()
        invariant
            chars@ == s@,
            i <= s@.len(),
            i % 2 == 0,
            s@.len() % 2 == 0,
            s@.len() <= usize::MAX,
            unhex_of(s@.take(i as int)) == Some(out@),
        decreases s@.len() - i,
    {
        assert(s@.take(i + 2).take(i as int) =~= s@.take(i as int));
        match byte_of(chars[i], chars[i + 1]) {
            None => {
                proof {
                    lemma_spoiled(s@, i + 2);
                }
                return None;
            },
            Some(b) => {
                out.push(b);
            },
        }
        i += 2;
    }
    assert(s@.take(s@.len() as int) =~= s@);
    Some(out)
}

/// The thirty-two bytes that `s` spells, if it spells that many.
pub fn unhex32(s: &str) -> (r: Option<[u8; 32]>)
    ensures
        match r {
            Some(b) => unhex_32(s@) == Some(b@),
            None => unhex_32(s@) is None,
        },
{
    match unhex(s) {
        Some(b) => bytes::to_32(b.as_slice()),
        None => None,
    }
}

/// Append the characters from `a` up to `b`.
fn push_range(out: &mut String, chars: &Vec<char>, a: usize, b: usize)
    requires
        a <= b <= chars@.len(),
    ensures
        final(out)@ == old(out)@ + chars@.subrange(a as int, b as int),
{
    let mut i: usize = a;
    assert(out@ =~= old(out)@ + chars@.subrange(a as int, a as int));
    while i < b
        invariant
            a <= i <= b <= chars@.len(),
            out@ == old(out)@ + chars@.subrange(a as int, i as int),
        decreases b - i,
    {
        out.push(chars[i]);
        i += 1;
        assert(out@ =~= old(out)@ + chars@.subrange(a as int, i as int));
    }
}

fn upper_of(c: char) -> (r: char)
    ensures
        r == upper_char(c),
{
    if 'a' <= c && c <= 'z' {
        (c as u8 - 32) as char
    } else {
        c
    }
}

/// A UUID-shaped identifier from bytes that are random already.
pub fn uuid_like(seed: &[u8; 32]) -> (r: String)
    ensures
        r@ == uuid_text(seed@),
{
    let lower = hex(bytes::front(seed.as_slice(), 16));
    proof {
        law_hex_round_trip(seed@.take(16));
    }
    let chars = text::chars_of(lower.as_str());
    let mut digits: Vec<char> = Vec::new();
    let mut i: usize = 0;
    while i < chars.len()
        invariant
            i <= chars@.len(),
            digits@ == upper(chars@).take(i as int),
        decreases chars@.len() - i,
    {
        digits.push(upper_of(chars[i]));
        i += 1;
        assert(digits@ =~= upper(chars@).take(i as int));
    }
    assert(digits@ =~= upper(lower@));
    let mut out = String::new();
    push_range(&mut out, &digits, 0, 8);
    out.append("-");
    push_range(&mut out, &digits, 8, 12);
    out.append("-");
    push_range(&mut out, &digits, 12, 16);
    out.append("-");
    push_range(&mut out, &digits, 16, 20);
    out.append("-");
    push_range(&mut out, &digits, 20, 32);
    assert(out@ =~= uuid_text(seed@));
    out
}

} // verus!
