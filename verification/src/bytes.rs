//! Byte strings: joining, comparing, and the little- and big-endian readings of a number.

use vstd::arithmetic::power::pow;
use vstd::prelude::*;

verus! {

/// Two hundred and fifty-six to the power `n`: how many values `n` bytes can take.
pub open spec fn pow256(n: nat) -> nat
    decreases n,
{
    if n == 0 {
        1
    } else {
        256 * pow256((n - 1) as nat)
    }
}

/// The number that `s` spells with its least significant byte first.
pub open spec fn le_nat(s: Seq<u8>) -> nat
    decreases s.len(),
{
    if s.len() == 0 {
        0
    } else {
        s[0] as nat + 256 * le_nat(s.skip(1))
    }
}

/// The low `width` bytes of `n`, least significant first. What does not fit is dropped.
pub open spec fn le_bytes(n: nat, width: nat) -> Seq<u8>
    decreases width,
{
    if width == 0 {
        seq![]
    } else {
        seq![(n % 256) as u8] + le_bytes(n / 256, (width - 1) as nat)
    }
}

/// The number that `s` spells with its most significant byte first.
pub open spec fn be_nat(s: Seq<u8>) -> nat
    decreases s.len(),
{
    if s.len() == 0 {
        0
    } else {
        256 * be_nat(s.drop_last()) + s.last() as nat
    }
}

/// The shortest big-endian spelling of `n`; zero takes one byte.
pub open spec fn be_bytes(n: nat) -> Seq<u8>
    decreases n,
{
    if n < 256 {
        seq![n as u8]
    } else {
        be_bytes(n / 256).push((n % 256) as u8)
    }
}

/// `width` bytes of zero.
pub open spec fn zeros(width: nat) -> Seq<u8> {
    Seq::new(width, |i: int| 0u8)
}

/// `n` in big-endian form, with zeros in front up to `width` bytes.
pub open spec fn padded(n: nat, width: nat) -> Seq<u8> {
    let b = be_bytes(n);
    if b.len() < width {
        zeros((width - b.len()) as nat) + b
    } else {
        b
    }
}

/// `width` bytes hold a number below `pow256(width)`.
pub proof fn lemma_le_nat_bound(s: Seq<u8>)
    ensures
        le_nat(s) < pow256(s.len()),
    decreases s.len(),
{
    if s.len() > 0 {
        lemma_le_nat_bound(s.skip(1));
    }
}

/// A little-endian spelling has the width it was asked for.
pub proof fn lemma_le_bytes_len(n: nat, width: nat)
    ensures
        le_bytes(n, width).len() == width,
    decreases width,
{
    if width > 0 {
        lemma_le_bytes_len(n / 256, (width - 1) as nat);
    }
}

/// A number that fits in `width` bytes is read back from its little-endian spelling.
pub proof fn law_le_round_trip(n: nat, width: nat)
    requires
        n < pow256(width),
    ensures
        le_nat(le_bytes(n, width)) == n,
    decreases width,
{
    if width > 0 {
        let rest = le_bytes(n / 256, (width - 1) as nat);
        lemma_le_bytes_len(n, width);
        assert(le_bytes(n, width).skip(1) =~= rest);
        law_le_round_trip(n / 256, (width - 1) as nat);
    }
}

/// What does not fit in `width` bytes is dropped.
pub proof fn lemma_le_bytes_wrap(n: nat, width: nat)
    ensures
        le_nat(le_bytes(n, width)) == n % pow256(width),
        pow256(width) > 0,
    decreases width,
{
    if width == 0 {
        assert(n % 1 == 0);
    } else {
        let w = (width - 1) as nat;
        lemma_le_bytes_len(n, width);
        assert(le_bytes(n, width).skip(1) =~= le_bytes(n / 256, w));
        lemma_le_bytes_wrap(n / 256, w);
        vstd::arithmetic::div_mod::lemma_mod_breakdown(n as int, 256, pow256(w) as int);
    }
}

/// The widths that the wire formats use.
pub proof fn lemma_pow256_values()
    ensures
        pow256(0) == 1,
        pow256(1) == 0x100,
        pow256(2) == 0x1_0000,
        pow256(3) == 0x100_0000,
        pow256(4) == 0x1_0000_0000,
        pow256(8) == 0x1_0000_0000_0000_0000,
{
    reveal_with_fuel(pow256, 9);
}

/// More bytes hold no fewer values.
pub proof fn lemma_pow256_grows(a: nat, b: nat)
    requires
        a <= b,
    ensures
        pow256(a) <= pow256(b),
    decreases b,
{
    if a < b {
        lemma_pow256_grows(a, (b - 1) as nat);
    }
}

/// A number is read back from its big-endian spelling.
pub proof fn law_be_round_trip(n: nat)
    ensures
        be_nat(be_bytes(n)) == n,
        be_bytes(n).len() > 0,
    decreases n,
{
    if n < 256 {
        let b = seq![n as u8];
        assert(b.drop_last() =~= seq![]);
        assert(be_nat(b.drop_last()) == 0);
    } else {
        law_be_round_trip(n / 256);
        assert(be_bytes(n).drop_last() =~= be_bytes(n / 256));
    }
}

/// A smaller number takes no more bytes.
pub proof fn lemma_be_bytes_grow(a: nat, b: nat)
    requires
        a <= b,
    ensures
        be_bytes(a).len() <= be_bytes(b).len(),
    decreases b,
{
    if a >= 256 {
        lemma_be_bytes_grow(a / 256, b / 256);
    } else if b >= 256 {
        law_be_round_trip(b / 256);
    }
}

/// `width` bytes of zero and `s` spell the number that `s` spells.
proof fn lemma_zeros_in_front(width: nat, s: Seq<u8>)
    ensures
        be_nat(zeros(width) + s) == be_nat(s),
    decreases width + s.len(),
{
    let whole = zeros(width) + s;
    if s.len() > 0 {
        assert(whole.drop_last() =~= zeros(width) + s.drop_last());
        lemma_zeros_in_front(width, s.drop_last());
    } else if width > 0 {
        assert(whole.drop_last() =~= zeros((width - 1) as nat) + s);
        lemma_zeros_in_front((width - 1) as nat, s);
    } else {
        assert(whole =~= s);
    }
}

/// Padding changes no number, and a number that fits has exactly the width it was padded to.
pub proof fn law_padding_keeps_the_number(n: nat, width: nat)
    ensures
        be_nat(padded(n, width)) == n,
        be_bytes(n).len() <= width ==> padded(n, width).len() == width,
        be_bytes(n).len() >= width ==> padded(n, width) == be_bytes(n),
{
    law_be_round_trip(n);
    if be_bytes(n).len() < width {
        lemma_zeros_in_front((width - be_bytes(n).len()) as nat, be_bytes(n));
    }
}

/// `width` bytes take as many values as 256 to that power.
pub proof fn law_pow256(n: nat)
    ensures
        pow256(n) == pow(256, n),
    decreases n,
{
    reveal(pow);
    if n > 0 {
        law_pow256((n - 1) as nat);
    }
}

/// In a little-endian number the byte at place `k` counts 256 to the power `k`: one more byte
/// behind adds that many times its value.
pub proof fn law_le_places(s: Seq<u8>, b: u8)
    ensures
        le_nat(Seq::<u8>::empty()) == 0,
        le_nat(s.push(b)) == le_nat(s) + b * pow(256, s.len()),
    decreases s.len(),
{
    law_pow256(s.len());
    let whole = s.push(b);
    if s.len() == 0 {
        assert(whole.skip(1) =~= Seq::<u8>::empty());
        assert(b * 1 == b);
    } else {
        assert(whole.skip(1) =~= s.skip(1).push(b));
        law_le_places(s.skip(1), b);
        law_pow256(s.skip(1).len());
        let w = pow256(s.skip(1).len());
        assert(256 * (b * w) == b * (256 * w)) by (nonlinear_arith);
    }
}

/// In a big-endian number the first of `n + 1` bytes counts 256 to the power `n`.
pub proof fn law_be_places(b: u8, s: Seq<u8>)
    ensures
        be_nat(Seq::<u8>::empty()) == 0,
        be_nat(seq![b] + s) == b * pow(256, s.len()) + be_nat(s),
    decreases s.len(),
{
    law_pow256(s.len());
    let whole = seq![b] + s;
    if s.len() == 0 {
        assert(whole.drop_last() =~= Seq::<u8>::empty());
        assert(b * 1 == b);
    } else {
        assert(whole.drop_last() =~= seq![b] + s.drop_last());
        law_be_places(b, s.drop_last());
        law_pow256(s.drop_last().len());
        let w = pow256(s.drop_last().len());
        assert(256 * (b * w) == b * (256 * w)) by (nonlinear_arith);
    }
}

/// The byte at place `k` of a little-endian spelling is what 256 to the power `k` goes into the
/// number, without the multiples of 256.
pub proof fn law_le_digits(n: nat, width: nat, k: nat)
    requires
        k < width,
    ensures
        le_bytes(n, width).len() == width,
        le_bytes(n, width)[k as int] == n as int / pow(256, k) % 256,
    decreases k,
{
    lemma_le_bytes_len(n, width);
    lemma_le_bytes_len(n / 256, (width - 1) as nat);
    law_pow256(k);
    if k == 0 {
        assert(n as int / 1 == n);
    } else {
        law_le_digits(n / 256, (width - 1) as nat, (k - 1) as nat);
        law_pow256((k - 1) as nat);
        lemma_pow256_grows(0, (k - 1) as nat);
        vstd::arithmetic::div_mod::lemma_div_denominator(
            n as int,
            256,
            pow256((k - 1) as nat) as int,
        );
    }
}

/// The big-endian spelling of a number is the shortest: no zero stands in front, but for the
/// single byte of zero itself.
pub proof fn law_be_is_shortest(n: nat)
    ensures
        be_bytes(n).len() > 1 ==> be_bytes(n)[0] != 0,
    decreases n,
{
    if n >= 256 {
        law_be_is_shortest(n / 256);
        law_be_round_trip(n / 256);
        if be_bytes(n / 256).len() == 1 {
            let b = be_bytes(n / 256);
            assert(b.drop_last() =~= Seq::<u8>::empty());
            assert(be_nat(b.drop_last()) == 0);
        }
    }
}

/// Zeros are the bytes of the number zero, as many as asked for.
pub proof fn law_zeros(width: nat)
    ensures
        zeros(width).len() == width,
        forall|i: int| 0 <= i < width ==> zeros(width)[i] == 0,
{
}

/// Append `bytes` to `out`.
pub fn append(out: &mut Vec<u8>, bytes: &[u8])
    ensures
        final(out)@ == old(out)@ + bytes@,
{
    out.extend_from_slice(bytes);
    assert(out@ =~= old(out)@ + bytes@);
}

/// A copy of `bytes` that owns its storage.
pub fn copy(bytes: &[u8]) -> (r: Vec<u8>)
    ensures
        r@ == bytes@,
{
    let mut out: Vec<u8> = Vec::new();
    append(&mut out, bytes);
    assert(out@ =~= bytes@);
    out
}

/// Three byte strings one after another.
pub fn concat3(a: &[u8], b: &[u8], c: &[u8]) -> (r: Vec<u8>)
    ensures
        r@ == a@ + b@ + c@,
{
    let mut out = copy(a);
    append(&mut out, b);
    append(&mut out, c);
    out
}

/// A single byte.
pub fn one(b: u8) -> (r: Vec<u8>)
    ensures
        r@ == seq![b],
{
    let mut out: Vec<u8> = Vec::new();
    out.push(b);
    assert(out@ =~= seq![b]);
    out
}

/// The first `n` bytes.
pub fn front(s: &[u8], n: usize) -> (r: &[u8])
    requires
        n <= s@.len(),
    ensures
        r@ == s@.take(n as int),
{
    &s[0..n]
}

/// What follows the first `n` bytes.
pub fn back(s: &[u8], n: usize) -> (r: &[u8])
    requires
        n <= s@.len(),
    ensures
        r@ == s@.skip(n as int),
{
    &s[n..s.len()]
}

/// Whether the two byte strings are the same.
pub fn same(a: &[u8], b: &[u8]) -> (r: bool)
    ensures
        r == (a@ == b@),
{
    if a.len() != b.len() {
        return false;
    }
    let mut i: usize = 0;
    while i < a.len()
        invariant
            i <= a@.len(),
            a@.len() == b@.len(),
            forall|j: int| 0 <= j < i ==> a@[j] == b@[j],
        decreases a@.len() - i,
    {
        if a[i] != b[i] {
            return false;
        }
        i += 1;
    }
    assert(a@ =~= b@);
    true
}

/// The thirty-two bytes of `bytes`, if it is that long.
pub fn to_32(bytes: &[u8]) -> (r: Option<[u8; 32]>)
    ensures
        match r {
            Some(a) => a@ == bytes@,
            None => bytes@.len() != 32,
        },
{
    if bytes.len() != 32 {
        return None;
    }
    let mut a: [u8; 32] = [0u8; 32];
    let mut i: usize = 0;
    while i < 32
        invariant
            i <= 32,
            bytes@.len() == 32,
            forall|j: int| 0 <= j < i ==> a@[j] == bytes@[j],
        decreases 32 - i,
    {
        a[i] = bytes[i];
        i += 1;
    }
    assert(a@ =~= bytes@);
    Some(a)
}

/// The sixty-four bytes of `bytes`, if it is that long.
pub fn to_64(bytes: &[u8]) -> (r: Option<[u8; 64]>)
    ensures
        match r {
            Some(a) => a@ == bytes@,
            None => bytes@.len() != 64,
        },
{
    if bytes.len() != 64 {
        return None;
    }
    let mut a: [u8; 64] = [0u8; 64];
    let mut i: usize = 0;
    while i < 64
        invariant
            i <= 64,
            bytes@.len() == 64,
            forall|j: int| 0 <= j < i ==> a@[j] == bytes@[j],
        decreases 64 - i,
    {
        a[i] = bytes[i];
        i += 1;
    }
    assert(a@ =~= bytes@);
    Some(a)
}

/// Read a little-endian number of at most eight bytes.
pub fn read_le(bytes: &[u8]) -> (r: u64)
    requires
        bytes@.len() <= 8,
    ensures
        r == le_nat(bytes@),
{
    let mut value: u64 = 0;
    let mut i: usize = bytes.len();
    assert(bytes@.skip(bytes@.len() as int) =~= seq![]);
    while i > 0
        invariant
            i <= bytes@.len() <= 8,
            value == le_nat(bytes@.skip(i as int)),
        decreases i,
    {
        i -= 1;
        proof {
            let tail = bytes@.skip(i as int);
            assert(tail.skip(1) =~= bytes@.skip(i + 1));
            lemma_le_nat_bound(tail);
            lemma_pow256_grows(tail.len(), 8);
            lemma_pow256_values();
        }
        value = bytes[i] as u64 + 256 * value;
    }
    assert(bytes@.skip(0) =~= bytes@);
    value
}

/// Append the low `width` bytes of `n`, least significant first.
pub fn push_le(out: &mut Vec<u8>, n: u64, width: usize)
    ensures
        final(out)@ == old(out)@ + le_bytes(n as nat, width as nat),
{
    let mut left: u64 = n;
    let mut i: usize = 0;
    while i < width
        invariant
            i <= width,
            old(out)@ + le_bytes(n as nat, width as nat) == out@ + le_bytes(
                left as nat,
                (width - i) as nat,
            ),
        decreases width - i,
    {
        let ghost before = out@;
        let low: u8 = (left % 256) as u8;
        out.push(low);
        left = left / 256;
        i += 1;
        assert(before + le_bytes((left * 256 + low) as nat, (width - i + 1) as nat) =~= out@
            + le_bytes(left as nat, (width - i) as nat));
    }
    assert(out@ + le_bytes(left as nat, 0) =~= out@);
}

} // verus!
