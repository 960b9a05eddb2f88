//! Text: the order of strings, searching, decimal numbers, letter case.

use crate::bytes;
use vstd::arithmetic::power::pow;
use vstd::prelude::*;
use vstd::utf8::*;

verus! {

/// Dictionary order by code point, which is the order of the UTF-8 bytes too.
pub open spec fn before(a: Seq<char>, b: Seq<char>) -> bool
    decreases a.len(),
{
    if b.len() == 0 {
        false
    } else if a.len() == 0 {
        true
    } else if a[0] != b[0] {
        a[0] < b[0]
    } else {
        before(a.skip(1), b.skip(1))
    }
}

/// Nothing comes before itself.
pub proof fn lemma_before_irreflexive(a: Seq<char>)
    ensures
        !before(a, a),
    decreases a.len(),
{
    if a.len() > 0 {
        lemma_before_irreflexive(a.skip(1));
    }
}

/// The order chains.
pub proof fn lemma_before_transitive(a: Seq<char>, b: Seq<char>, c: Seq<char>)
    requires
        before(a, b),
        before(b, c),
    ensures
        before(a, c),
    decreases a.len(),
{
    if a.len() > 0 && a[0] == b[0] && b[0] == c[0] {
        lemma_before_transitive(a.skip(1), b.skip(1), c.skip(1));
    }
}

/// Two different strings are ordered one way or the other.
pub proof fn lemma_before_total(a: Seq<char>, b: Seq<char>)
    ensures
        before(a, b) || before(b, a) || a == b,
    decreases a.len(),
{
    if a.len() > 0 && b.len() > 0 && a[0] == b[0] {
        lemma_before_total(a.skip(1), b.skip(1));
        if a.skip(1) == b.skip(1) {
            assert(a =~= seq![a[0]] + a.skip(1));
            assert(b =~= seq![b[0]] + b.skip(1));
        }
    } else if a.len() == 0 && b.len() == 0 {
        assert(a =~= b);
    }
}

/// The texts are the same up to place `k`, and there the first has ended and the second goes on,
/// or the first has the smaller code point.
pub open spec fn parts_at(a: Seq<char>, b: Seq<char>, k: int) -> bool {
    &&& 0 <= k < b.len()
    &&& k <= a.len()
    &&& forall|i: int| 0 <= i < k ==> a[i] == b[i]
    &&& k == a.len() || a[k] < b[k]
}

/// One text comes before another exactly where there is a place up to which they are the same,
/// and at which the first has ended or has the smaller code point.
pub proof fn law_order_of_texts(a: Seq<char>, b: Seq<char>)
    ensures
        before(a, b) <==> exists|k: int| parts_at(a, b, k),
    decreases a.len(),
{
    if a.len() > 0 && b.len() > 0 && a[0] == b[0] {
        let x = a.skip(1);
        let y = b.skip(1);
        law_order_of_texts(x, y);
        if before(x, y) {
            let k = choose|k: int| parts_at(x, y, k);
            assert forall|i: int| 0 <= i < k + 1 implies a[i] == b[i] by {
                if i > 0 {
                    assert(x[i - 1] == y[i - 1]);
                }
            }
            assert(parts_at(a, b, k + 1));
        }
        if exists|k: int| parts_at(a, b, k) {
            let k = choose|k: int| parts_at(a, b, k);
            assert forall|i: int| 0 <= i < k - 1 implies x[i] == y[i] by {
                assert(a[i + 1] == b[i + 1]);
            }
            assert(parts_at(x, y, k - 1));
        }
    } else if b.len() > 0 {
        if before(a, b) {
            assert(parts_at(a, b, 0));
        } else {
            assert forall|k: int| !parts_at(a, b, k) by {
                if parts_at(a, b, k) && k > 0 {
                    assert(a[0] == b[0]);
                }
            }
        }
    }
}

/// `needle` stands somewhere in `hay`.
pub open spec fn occurs(needle: Seq<char>, hay: Seq<char>) -> bool {
    exists|i: int| occurs_at(needle, hay, i)
}

/// `needle` stands in `hay` at `i`.
pub open spec fn occurs_at(needle: Seq<char>, hay: Seq<char>, i: int) -> bool {
    0 <= i && i + needle.len() <= hay.len() && hay.subrange(i, i + needle.len()) == needle
}

/// `hay` begins with `needle`.
pub open spec fn begins(needle: Seq<char>, hay: Seq<char>) -> bool {
    occurs_at(needle, hay, 0)
}

/// A text stands in another exactly where the other is something, the text, and something.
pub proof fn law_occurs(needle: Seq<char>, hay: Seq<char>)
    ensures
        occurs(needle, hay) <==> exists|a: Seq<char>, b: Seq<char>|
            hay == #[trigger] (a + needle + b),
        begins(needle, hay) <==> needle.is_prefix_of(hay),
        begins(needle, hay) <==> exists|b: Seq<char>| hay == #[trigger] (needle + b),
{
    if occurs(needle, hay) {
        let i = choose|i: int| occurs_at(needle, hay, i);
        let a = hay.take(i);
        let b = hay.skip(i + needle.len());
        assert(hay =~= a + needle + b);
    }
    if exists|a: Seq<char>, b: Seq<char>| hay == #[trigger] (a + needle + b) {
        let (a, b) = choose|a: Seq<char>, b: Seq<char>| hay == #[trigger] (a + needle + b);
        assert(hay.subrange(a.len() as int, (a.len() + needle.len()) as int) =~= needle);
        assert(occurs_at(needle, hay, a.len() as int));
    }
    if begins(needle, hay) {
        assert(hay =~= needle + hay.skip(needle.len() as int));
    }
    if exists|b: Seq<char>| hay == #[trigger] (needle + b) {
        let b = choose|b: Seq<char>| hay == #[trigger] (needle + b);
        assert(hay.subrange(0, needle.len() as int) =~= needle);
    }
}

/// The character of a decimal digit.
pub open spec fn digit(d: nat) -> char {
    (48 + d) as char
}

/// `n` in decimal.
pub open spec fn decimal(n: nat) -> Seq<char>
    decreases n,
{
    if n < 10 {
        seq![digit(n)]
    } else {
        decimal(n / 10).push(digit(n % 10))
    }
}

/// A decimal digit.
pub open spec fn is_digit(c: char) -> bool {
    '0' <= c && c <= '9'
}

/// The number that decimal digits spell.
pub open spec fn decimal_value(s: Seq<char>) -> nat
    decreases s.len(),
{
    if s.len() == 0 {
        0
    } else {
        (10 * decimal_value(s.drop_last()) + (s.last() as int - 48)) as nat
    }
}

/// A number written in decimal is digits, at least one, that spell the number.
pub proof fn law_decimal_reads_back(n: nat)
    ensures
        decimal(n).len() > 0,
        decimal_value(decimal(n)) == n,
        forall|i: int| 0 <= i < decimal(n).len() ==> is_digit(#[trigger] decimal(n)[i]),
    decreases n,
{
    if n < 10 {
        assert(decimal(n).drop_last() =~= seq![]);
        assert(decimal_value(decimal(n).drop_last()) == 0);
    } else {
        law_decimal_reads_back(n / 10);
        assert(decimal(n).drop_last() =~= decimal(n / 10));
    }
}

/// In a decimal number the first of `n + 1` digits counts 10 to the power `n`.
pub proof fn law_decimal_places(c: char, s: Seq<char>)
    requires
        '0' <= c,
        c <= '9',
        forall|i: int| 0 <= i < s.len() ==> '0' <= #[trigger] s[i] && s[i] <= '9',
    ensures
        decimal_value(Seq::<char>::empty()) == 0,
        decimal_value(seq![c] + s) == (c as int - '0' as int) * pow(10, s.len()) + decimal_value(s),
    decreases s.len(),
{
    reveal(pow);
    let whole = seq![c] + s;
    if s.len() == 0 {
        assert(whole.drop_last() =~= Seq::<char>::empty());
        assert((c as int - 48) * 1 == c as int - 48);
    } else {
        assert(whole.drop_last() =~= seq![c] + s.drop_last());
        law_decimal_places(c, s.drop_last());
        let w = pow(10, s.drop_last().len());
        let d = c as int - 48;
        assert(10 * (d * w) == d * (10 * w)) by (nonlinear_arith);
    }
}

/// A number in decimal has no nought in front, unless it is nought.
pub proof fn law_decimal_is_shortest(n: nat)
    ensures
        forall|i: int|
            0 <= i < decimal(n).len() ==> '0' <= #[trigger] decimal(n)[i] && decimal(n)[i] <= '9',
        decimal(n).len() > 0,
        n > 0 ==> decimal(n)[0] != '0',
        n == 0 ==> decimal(n) == seq!['0'],
    decreases n,
{
    if n >= 10 {
        law_decimal_is_shortest(n / 10);
    }
}

/// The two strings hold the same bytes only where they are the same text.
pub proof fn lemma_utf8_injective(a: Seq<char>, b: Seq<char>)
    requires
        encode_utf8(a) == encode_utf8(b),
    ensures
        a == b,
{
    encode_utf8_decode_utf8(a);
    encode_utf8_decode_utf8(b);
}

/// What [`String::from_utf8_lossy`] makes of bytes that are not UTF-8.
pub uninterp spec fn replaced_utf8(bytes: Seq<u8>) -> Seq<char>;

/// The text that `bytes` spell in UTF-8, or near enough where they spell none.
pub open spec fn lossy(bytes: Seq<u8>) -> Seq<char> {
    if valid_utf8(bytes) {
        decode_utf8(bytes)
    } else {
        replaced_utf8(bytes)
    }
}

/// `String::from_utf8_lossy` decodes valid UTF-8 as it stands. Of other bytes it puts a
/// replacement character in place of what it cannot decode; which text that gives has the name
/// [`replaced_utf8`] here, and nothing more is said of it.
#[verifier::external_body]
pub(crate) fn text_lossy(bytes: &[u8]) -> (r: String)
    ensures
        valid_utf8(bytes@) ==> r@ == decode_utf8(bytes@),
        !valid_utf8(bytes@) ==> r@ == replaced_utf8(bytes@),
{
    String::from_utf8_lossy(bytes).into_owned()
}

/// Text that went out as UTF-8 comes back as it was. Only bytes that are no UTF-8 have something
/// in them replaced.
pub proof fn law_text_survives(t: Seq<char>, other: Seq<u8>)
    ensures
        lossy(encode_utf8(t)) == t,
        !valid_utf8(other) ==> lossy(other) == replaced_utf8(other),
{
    encode_utf8_valid_utf8(t);
    encode_utf8_decode_utf8(t);
}

/// The text that `{:?}` writes for a string.
pub uninterp spec fn quoted(text: Seq<char>) -> Seq<char>;

/// `str`'s `Debug` puts a string in quotes and escapes some of its characters. The text that
/// gives has the name [`quoted`] here, and nothing more is said of it.
#[verifier::external_body]
pub(crate) fn text_quoted(s: &str) -> (r: String)
    ensures
        r@ == quoted(s@),
{
    format!("{:?}", s)
}

/// An ASCII letter in lower case.
pub open spec fn lower_char(c: char) -> char {
    if 'A' <= c && c <= 'Z' {
        (c as int + 32) as char
    } else {
        c
    }
}

/// What [`str::to_lowercase`] makes of text that is not all ASCII.
pub uninterp spec fn unicode_lowercase(s: Seq<char>) -> Seq<char>;

/// Text in lower case.
pub open spec fn lowercase(s: Seq<char>) -> Seq<char> {
    if is_ascii_chars(s) {
        s.map_values(|c: char| lower_char(c))
    } else {
        unicode_lowercase(s)
    }
}

/// `str::to_lowercase` maps the ASCII letters to their lower case one for one. Of text with other
/// characters it follows Unicode; what that gives has the name [`unicode_lowercase`] here.
#[verifier::external_body]
pub(crate) fn text_lowercase(s: &str) -> (r: String)
    ensures
        is_ascii_chars(s@) ==> r@ == s@.map_values(|c: char| lower_char(c)),
        !is_ascii_chars(s@) ==> r@ == unicode_lowercase(s@),
{
    s.to_lowercase()
}

/// Of ASCII text the capitals become the letters 32 code points on, and nothing else changes. Of
/// other text the lower case is Unicode's.
pub proof fn law_lower_case(s: Seq<char>)
    ensures
        !is_ascii_chars(s) ==> lowercase(s) == unicode_lowercase(s),
        is_ascii_chars(s) ==> lowercase(s).len() == s.len(),
        is_ascii_chars(s) ==> forall|i: int|
            0 <= i < s.len() ==> if 'A' <= #[trigger] s[i] && s[i] <= 'Z' {
                lowercase(s)[i] as int == s[i] as int + 32
            } else {
                lowercase(s)[i] == s[i]
            },
{
}

/// What [`char::is_alphanumeric`] says of a character beyond ASCII.
pub uninterp spec fn unicode_alphanumeric(c: char) -> bool;

/// A letter or a digit.
pub open spec fn alphanumeric(c: char) -> bool {
    if c <= '\u{7f}' {
        is_digit(c) || ('a' <= c && c <= 'z') || ('A' <= c && c <= 'Z')
    } else {
        unicode_alphanumeric(c)
    }
}

/// `char::is_alphanumeric` takes the letters and digits of ASCII and no others of it. Beyond
/// ASCII it follows Unicode; what it says there has the name [`unicode_alphanumeric`] here.
#[verifier::external_body]
pub(crate) fn char_alphanumeric(c: char) -> (r: bool)
    ensures
        c <= '\u{7f}' ==> r == (is_digit(c) || ('a' <= c && c <= 'z') || ('A' <= c && c
            <= 'Z')),
        c > '\u{7f}' ==> r == unicode_alphanumeric(c),
{
    c.is_alphanumeric()
}

/// `String::push` adds one character at the end of the text.
pub assume_specification[ String::push ](s: &mut String, c: char)
    ensures
        final(s)@ == old(s)@.push(c),
;

/// The characters of `s`.
pub fn chars_of(s: &str) -> (r: Vec<char>)
    ensures
        r@ == s@,
{
    let mut out: Vec<char> = Vec::new();
    for c in it: s.chars()
        invariant
            it.seq() == s@,
            out@ == s@.take(it.index() as int),
    {
        assert(s@.take(it.index() + 1) =~= s@.take(it.index() as int).push(c));
        out.push(c);
    }
    assert(s@.take(s@.len() as int) =~= s@);
    out
}

/// The text that `chars` spell.
pub fn text_of(chars: &[char]) -> (r: String)
    ensures
        r@ == chars@,
{
    let mut out = String::new();
    let mut i: usize = 0;
    while i < chars.len()
        invariant
            i <= chars@.len(),
            out@ == chars@.take(i as int),
        decreases chars@.len() - i,
    {
        assert(chars@.take(i + 1) =~= chars@.take(i as int).push(chars@[i as int]));
        out.push(chars[i]);
        i += 1;
    }
    assert(chars@.take(chars@.len() as int) =~= chars@);
    out
}

/// Whether the two strings are the same.
pub fn same(a: &str, b: &str) -> (r: bool)
    ensures
        r == (a@ == b@),
{
    let r = bytes::same(a.as_bytes(), b.as_bytes());
    proof {
        if r {
            lemma_utf8_injective(a@, b@);
        }
    }
    r
}

/// Whether `a` comes before `b`.
pub fn less(a: &str, b: &str) -> (r: bool)
    ensures
        r == before(a@, b@),
{
    let a_chars = chars_of(a);
    let b_chars = chars_of(b);
    let mut i: usize = 0;
    assert(a@.skip(0) =~= a@);
    assert(b@.skip(0) =~= b@);
    while i < a_chars.len() && i < b_chars.len()
        invariant
            a_chars@ == a@,
            b_chars@ == b@,
            i <= a@.len(),
            i <= b@.len(),
            before(a@, b@) == before(a@.skip(i as int), b@.skip(i as int)),
        decreases a@.len() - i,
    {
        if a_chars[i] != b_chars[i] {
            return a_chars[i] < b_chars[i];
        }
        assert(a@.skip(i as int).skip(1) =~= a@.skip(i + 1));
        assert(b@.skip(i as int).skip(1) =~= b@.skip(i + 1));
        i += 1;
    }
    i < b_chars.len()
}

fn matches_at(needle: &Vec<char>, hay: &Vec<char>, at: usize) -> (r: bool)
    requires
        at <= hay@.len(),
    ensures
        r == occurs_at(needle@, hay@, at as int),
{
    if needle.len() > hay.len() - at {
        return false;
    }
    let mut i: usize = 0;
    while i < needle.len()
        invariant
            i <= needle@.len(),
            at + needle@.len() <= hay@.len() <= usize::MAX,
            forall|j: int| 0 <= j < i ==> needle@[j] == hay@[at + j],
        decreases needle@.len() - i,
    {
        if needle[i] != hay[at + i] {
            assert(hay@.subrange(at as int, at + needle@.len())[i as int] != needle@[i as int]);
            return false;
        }
        i += 1;
    }
    assert(hay@.subrange(at as int, at + needle@.len()) =~= needle@);
    true
}

/// Whether `needle` stands somewhere in `hay`.
pub fn contains(hay: &str, needle: &str) -> (r: bool)
    ensures
        r == occurs(needle@, hay@),
{
    let hay_chars = chars_of(hay);
    let needle_chars = chars_of(needle);
    let mut i: usize = 0;
    while i < hay_chars.len()
        invariant
            hay_chars@ == hay@,
            needle_chars@ == needle@,
            i <= hay@.len(),
            forall|j: int| 0 <= j < i ==> !occurs_at(needle@, hay@, j),
        decreases hay@.len() - i,
    {
        if matches_at(&needle_chars, &hay_chars, i) {
            return true;
        }
        i += 1;
    }
    let r = matches_at(&needle_chars, &hay_chars, i);
    proof {
        if !r {
            assert forall|j: int| !occurs_at(needle@, hay@, j) by {
                if j == i {
                } else if j > i {
                }
            }
        }
    }
    r
}

/// Whether `hay` begins with `needle`.
pub fn starts_with(hay: &str, needle: &str) -> (r: bool)
    ensures
        r == begins(needle@, hay@),
{
    matches_at(&chars_of(needle), &chars_of(hay), 0)
}

/// `n` in decimal.
pub fn decimal_text(n: u64) -> (r: String)
    ensures
        r@ == decimal(n as nat),
    decreases n,
{
    let c: char = (48 + (n % 10) as u8) as char;
    if n < 10 {
        let mut out = String::new();
        out.push(c);
        assert(out@ =~= seq![c]);
        out
    } else {
        let mut out = decimal_text(n / 10);
        out.push(c);
        out
    }
}

/// Two pieces of text as one.
pub fn concat(a: &str, b: &str) -> (r: String)
    ensures
        r@ == a@ + b@,
{
    let mut out = String::new();
    out.append(a);
    out.append(b);
    assert(out@ =~= a@ + b@);
    out
}

/// Three pieces of text as one.
pub fn concat3(a: &str, b: &str, c: &str) -> (r: String)
    ensures
        r@ == a@ + b@ + c@,
{
    let mut out = concat(a, b);
    out.append(c);
    out
}

// --------------------------------------------------------------------------------------------
// Sorting
// --------------------------------------------------------------------------------------------

/// `s` with `t` in front of the first text that comes after it.
pub open spec fn placed(s: Seq<Seq<char>>, t: Seq<char>) -> Seq<Seq<char>>
    decreases s.len(),
{
    if s.len() == 0 {
        seq![t]
    } else if before(t, s[0]) {
        seq![t] + s
    } else {
        seq![s[0]] + placed(s.skip(1), t)
    }
}

/// Texts in order.
pub open spec fn sorted(s: Seq<Seq<char>>) -> Seq<Seq<char>>
    decreases s.len(),
{
    if s.len() == 0 {
        seq![]
    } else {
        placed(sorted(s.drop_last()), s.last())
    }
}

/// No text comes before one that stands in front of it.
pub open spec fn in_order(s: Seq<Seq<char>>) -> bool {
    forall|i: int, j: int| 0 <= i < j < s.len() ==> !before(#[trigger] s[j], #[trigger] s[i])
}

/// Where nothing up to `i` comes after `t` and what stands at `i` does, `t` goes to `i`.
proof fn lemma_placed_at(s: Seq<Seq<char>>, t: Seq<char>, i: int)
    requires
        0 <= i <= s.len(),
        forall|j: int| 0 <= j < i ==> !before(t, #[trigger] s[j]),
        i < s.len() ==> before(t, s[i]),
    ensures
        placed(s, t) == s.insert(i, t),
    decreases s.len(),
{
    if s.len() == 0 {
        assert(s.insert(0, t) =~= seq![t]);
    } else if i == 0 {
        assert(s.insert(0, t) =~= seq![t] + s);
    } else {
        let rest = s.skip(1);
        assert(!before(t, s[0]));
        assert forall|j: int| 0 <= j < i - 1 implies !before(t, #[trigger] rest[j]) by {
            assert(!before(t, s[j + 1]));
        }
        lemma_placed_at(rest, t, i - 1);
        assert(s.insert(i, t) =~= seq![s[0]] + rest.insert(i - 1, t));
    }
}

proof fn lemma_placed_in_order(s: Seq<Seq<char>>, t: Seq<char>)
    requires
        in_order(s),
    ensures
        in_order(placed(s, t)),
        placed(s, t).to_multiset() == s.to_multiset().insert(t),
        placed(s, t).len() == s.len() + 1,
    decreases s.len(),
{
    broadcast use vstd::seq_lib::group_to_multiset_ensures;

    let r = placed(s, t);
    if s.len() == 0 {
        assert(s =~= seq![]);
        assert(r =~= s.push(t));
    } else if before(t, s[0]) {
        assert(r =~= s.insert(0, t));
        vstd::seq_lib::to_multiset_insert(s, 0, t);
        assert forall|i: int, j: int| 0 <= i < j < r.len() implies !before(
            #[trigger] r[j],
            #[trigger] r[i],
        ) by {
            assert(r[j] == s[j - 1]);
            if i > 0 {
                assert(r[i] == s[i - 1]);
            } else if before(s[j - 1], t) {
                lemma_before_transitive(s[j - 1], t, s[0]);
                if j == 1 {
                    lemma_before_irreflexive(s[0]);
                }
            }
        }
    } else {
        let rest = s.skip(1);
        assert forall|i: int, j: int| 0 <= i < j < rest.len() implies !before(
            #[trigger] rest[j],
            #[trigger] rest[i],
        ) by {
            assert(!before(s[j + 1], s[i + 1]));
        }
        lemma_placed_in_order(rest, t);
        let tail = placed(rest, t);
        assert(s =~= seq![s[0]] + rest);
        assert(r =~= seq![s[0]] + tail);
        vstd::seq_lib::lemma_multiset_commutative(seq![s[0]], rest);
        vstd::seq_lib::lemma_multiset_commutative(seq![s[0]], tail);
        assert(r.to_multiset() =~= s.to_multiset().insert(t));
        assert forall|j: int| 0 <= j < tail.len() implies !before(#[trigger] tail[j], s[0]) by {
            assert(tail.to_multiset().contains(tail[j]));
            assert(rest.to_multiset().insert(t).contains(tail[j]));
            if tail[j] != t {
                assert(rest.to_multiset().contains(tail[j]));
                let m = choose|m: int| 0 <= m < rest.len() && rest[m] == tail[j];
                assert(rest[m] == s[m + 1]);
                assert(!before(s[m + 1], s[0]));
            }
        }
        assert forall|i: int, j: int| 0 <= i < j < r.len() implies !before(
            #[trigger] r[j],
            #[trigger] r[i],
        ) by {
            assert(r[j] == tail[j - 1]);
            if i > 0 {
                assert(r[i] == tail[i - 1]);
            }
        }
    }
}

/// Sorting puts texts in order, and neither adds nor drops one.
pub proof fn law_sorted(s: Seq<Seq<char>>)
    ensures
        in_order(sorted(s)),
        forall|i: int, j: int|
            0 <= i < j < s.len() ==> !before(#[trigger] sorted(s)[j], #[trigger] sorted(s)[i]),
        sorted(s).to_multiset() == s.to_multiset(),
        sorted(s).len() == s.len(),
    decreases s.len(),
{
    broadcast use vstd::seq_lib::group_to_multiset_ensures;

    if s.len() > 0 {
        law_sorted(s.drop_last());
        lemma_placed_in_order(sorted(s.drop_last()), s.last());
        assert(s.drop_last().push(s.last()) =~= s);
    } else {
        assert(sorted(s) =~= s);
    }
}

/// The texts in order.
pub fn sort(names: Vec<String>) -> (r: Vec<String>)
    ensures
        Seq::new(r@.len(), |i: int| r@[i]@) == sorted(Seq::new(names@.len(), |i: int| names@[i]@)),
{
    let ghost all = Seq::new(names@.len(), |i: int| names@[i]@);
    let mut out: Vec<String> = Vec::new();
    let mut i: usize = 0;
    assert(Seq::new(out@.len(), |i: int| out@[i]@) =~= sorted(all.take(0)));
    while i < names.len()
        invariant
            i <= names@.len(),
            all == Seq::new(names@.len(), |i: int| names@[i]@),
            Seq::new(out@.len(), |i: int| out@[i]@) == sorted(all.take(i as int)),
        decreases names@.len() - i,
    {
        let ghost done = Seq::new(out@.len(), |i: int| out@[i]@);
        let ghost t = all[i as int];
        assert(all.take(i + 1).drop_last() =~= all.take(i as int));
        let mut at: usize = 0;
        while at < out.len() && !less(names[i].as_str(), out[at].as_str())
            invariant
                at <= out@.len(),
                i < names@.len(),
                t == names@[i as int]@,
                done == Seq::new(out@.len(), |i: int| out@[i]@),
                forall|j: int| 0 <= j < at ==> !before(t, #[trigger] done[j]),
            decreases out@.len() - at,
        {
            assert(done[at as int] == out@[at as int]@);
            at += 1;
        }
        proof {
            if at < out@.len() {
                assert(done[at as int] == out@[at as int]@);
            }
            lemma_placed_at(done, t, at as int);
        }
        out.insert(at, names[i].clone());
        assert(Seq::new(out@.len(), |i: int| out@[i]@) =~= done.insert(at as int, t));
        i += 1;
    }
    assert(all.take(all.len() as int) =~= all);
    out
}

} // verus!
