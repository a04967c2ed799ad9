//! Integers as byte strings: the little-endian framing of the blobs, the big-endian
//! form of decimal bounds, and a bounds-checked reader.
use vstd::arithmetic::div_mod::lemma_fundamental_div_mod_converse;
use vstd::arithmetic::power::lemma_pow_positive;
use vstd::arithmetic::power::pow;
use vstd::prelude::*;

verus! {

/// The `n` low bytes of `v` in two's complement, least significant byte first.
pub open spec fn le_bytes(v: int, n: nat) -> Seq<u8>
    decreases n,
{
    if n == 0 {
        Seq::empty()
    } else {
        seq![(v % 256) as u8] + le_bytes(v / 256, (n - 1) as nat)
    }
}

/// The unsigned value of a little-endian byte string.
pub open spec fn le_unsigned(s: Seq<u8>) -> int
    decreases s.len(),
{
    if s.len() == 0 {
        0
    } else {
        s[0] + 256 * le_unsigned(s.drop_first())
    }
}

/// A byte read as an eight-bit two's-complement number.
pub open spec fn signed_byte(b: u8) -> int {
    if b >= 128 {
        b - 256
    } else {
        b as int
    }
}

/// The two's-complement value of a little-endian byte string.
pub open spec fn le_signed(s: Seq<u8>) -> int
    decreases s.len(),
{
    if s.len() == 0 {
        0
    } else if s.len() == 1 {
        signed_byte(s[0])
    } else {
        s[0] + 256 * le_signed(s.drop_first())
    }
}

/// The two's-complement value of a big-endian byte string; zero for the empty one.
pub open spec fn be_signed(s: Seq<u8>) -> int
    decreases s.len(),
{
    if s.len() == 0 {
        0
    } else if s.len() == 1 {
        signed_byte(s[0])
    } else {
        256 * be_signed(s.drop_last()) + s.last()
    }
}

/// The shortest big-endian two's-complement byte string of `v`.
pub open spec fn min_be_bytes(v: int) -> Seq<u8>
    decreases (if v < 0 { -v } else { v }),
{
    if -128 <= v < 128 {
        seq![(v % 256) as u8]
    } else {
        min_be_bytes(v / 256).push((v % 256) as u8)
    }
}

/// `256` to the power `n`.
pub open spec fn pow256(n: nat) -> int
    decreases n,
{
    if n == 0 {
        1
    } else {
        256 * pow256((n - 1) as nat)
    }
}

pub proof fn lemma_pow256_values()
    ensures
        pow256(1) == 0x100,
        pow256(4) == 0x1_0000_0000,
        pow256(8) == 0x1_0000_0000_0000_0000,
        pow256(15) == 0x1_0000_0000_0000_0000_0000_0000_0000_00,
        pow256(16) == 0x1_0000_0000_0000_0000_0000_0000_0000_0000,
{
    reveal_with_fuel(pow256, 17);
}

pub proof fn lemma_pow256_grows(a: nat, b: nat)
    requires
        a <= b,
    ensures
        1 <= pow256(a) <= pow256(b),
    decreases b,
{
    if a < b {
        lemma_pow256_grows(a, (b - 1) as nat);
    } else if b > 0 {
        lemma_pow256_grows((a - 1) as nat, (b - 1) as nat);
    }
}

pub proof fn lemma_le_bytes_len(v: int, n: nat)
    ensures
        le_bytes(v, n).len() == n,
    decreases n,
{
    if n > 0 {
        lemma_le_bytes_len(v / 256, (n - 1) as nat);
    }
}

/// Reading back an unsigned number that fits in the bytes written.
pub proof fn lemma_le_unsigned_inverse(v: int, n: nat)
    requires
        0 <= v < pow256(n),
    ensures
        le_unsigned(le_bytes(v, n)) == v,
    decreases n,
{
    if n > 0 {
        lemma_le_unsigned_inverse(v / 256, (n - 1) as nat);
        assert(le_bytes(v, n).drop_first() =~= le_bytes(v / 256, (n - 1) as nat));
    }
}

/// Reading back a signed number that fits in the bytes written.
pub proof fn lemma_le_signed_inverse(v: int, n: nat)
    requires
        n > 0,
        -128 * pow256((n - 1) as nat) <= v < 128 * pow256((n - 1) as nat),
    ensures
        le_signed(le_bytes(v, n)) == v,
    decreases n,
{
    lemma_le_bytes_len(v, n);
    if n == 1 {
        assert(le_bytes(v, 1)[0] == (v % 256) as u8);
    } else {
        lemma_le_signed_inverse(v / 256, (n - 1) as nat);
        assert(le_bytes(v, n).drop_first() =~= le_bytes(v / 256, (n - 1) as nat));
    }
}

/// The bounds of an unsigned little-endian number.
pub proof fn lemma_le_unsigned_bound(s: Seq<u8>)
    ensures
        0 <= le_unsigned(s) < pow256(s.len()),
    decreases s.len(),
{
    if s.len() > 0 {
        lemma_le_unsigned_bound(s.drop_first());
    }
}

/// The signed reading of a byte string is the unsigned one, less `256^n` when the top bit is set.
pub proof fn lemma_le_signed_unsigned(s: Seq<u8>)
    requires
        s.len() > 0,
    ensures
        s.last() >= 128 ==> le_signed(s) == le_unsigned(s) - pow256(s.len()),
        s.last() < 128 ==> le_signed(s) == le_unsigned(s),
        -128 * pow256((s.len() - 1) as nat) <= le_signed(s) < 128 * pow256((s.len() - 1) as nat),
        2 * 128 * pow256((s.len() - 1) as nat) == pow256(s.len()),
        s.last() >= 128 <==> le_unsigned(s) >= 128 * pow256((s.len() - 1) as nat),
    decreases s.len(),
{
    if s.len() == 1 {
        assert(s.drop_first() =~= Seq::<u8>::empty());
        assert(le_unsigned(s.drop_first()) == 0);
        reveal_with_fuel(pow256, 2);
    } else {
        lemma_le_signed_unsigned(s.drop_first());
        assert(s.drop_first().last() == s.last());
    }
}

/// A shortest big-endian form reads back as its number.
pub proof fn lemma_min_be_inverse(v: int)
    ensures
        be_signed(min_be_bytes(v)) == v,
        min_be_bytes(v).len() > 0,
    decreases (if v < 0 { -v } else { v }),
{
    if !(-128 <= v < 128) {
        lemma_min_be_inverse(v / 256);
        assert(min_be_bytes(v).drop_last() =~= min_be_bytes(v / 256));
    }
}

/// A number of `8 * n` signed bits has a shortest form of at most `n` bytes.
pub proof fn lemma_min_be_len(v: int, n: nat)
    requires
        n > 0,
        -128 * pow256((n - 1) as nat) <= v < 128 * pow256((n - 1) as nat),
    ensures
        0 < min_be_bytes(v).len() <= n,
    decreases n,
{
    if !(-128 <= v < 128) {
        if n > 1 {
            lemma_min_be_len(v / 256, (n - 1) as nat);
        }
    }
}

/// No byte string shorter than `min_be_bytes(v)` reads as `v`.
pub proof fn lemma_min_be_shortest(v: int, s: Seq<u8>)
    requires
        s.len() > 0,
        be_signed(s) == v,
    ensures
        min_be_bytes(v).len() <= s.len(),
    decreases s.len(),
{
    if !(-128 <= v < 128) {
        if s.len() > 1 {
            lemma_min_be_shortest(v / 256, s.drop_last());
        }
    }
}

/// `s` stands in `b` at position `p`.
pub open spec fn stands_at(b: Seq<u8>, p: int, s: Seq<u8>) -> bool {
    &&& 0 <= p
    &&& p + s.len() <= b.len()
    &&& b.subrange(p, p + s.len()) == s
}

/// Where a concatenation stands, each part stands in its place.
pub proof fn lemma_stands_split(b: Seq<u8>, p: int, s: Seq<u8>, t: Seq<u8>)
    requires
        stands_at(b, p, s + t),
    ensures
        stands_at(b, p, s),
        stands_at(b, p + s.len(), t),
{
    let whole = b.subrange(p, p + (s + t).len());
    assert(b.subrange(p, p + s.len()) =~= whole.subrange(0, s.len() as int));
    assert(whole.subrange(0, s.len() as int) =~= s);
    assert(b.subrange(p + s.len(), p + s.len() + t.len()) =~= whole.subrange(
        s.len() as int,
        (s + t).len() as int,
    ));
    assert(whole.subrange(s.len() as int, (s + t).len() as int) =~= t);
}

/// Where the bytes of an unsigned number stand, it reads back.
pub proof fn lemma_stands_unsigned(b: Seq<u8>, p: int, v: int, n: nat)
    requires
        stands_at(b, p, le_bytes(v, n)),
        0 <= v < pow256(n),
    ensures
        p + n <= b.len(),
        le_unsigned(b.subrange(p, p + n)) == v,
{
    lemma_le_bytes_len(v, n);
    lemma_le_unsigned_inverse(v, n);
}

/// Floor division by 256, with its remainder.
fn split_low_byte(v: i128) -> (r: (i128, u8))
    ensures
        r.0 == v as int / 256,
        r.1 == v as int % 256,
{
    if v >= 0 {
        (v / 256, (v % 256) as u8)
    } else {
        let m: i128 = -(v + 1);
        (-(m / 256) - 1, (255 - m % 256) as u8)
    }
}

/// Append the `n` low bytes of `v`, least significant byte first.
pub fn put_le(o: &mut Vec<u8>, v: i128, n: usize)
    ensures
        final(o)@ == old(o)@ + le_bytes(v as int, n as nat),
{
    let mut rest: i128 = v;
    let mut left: usize = n;
    while left > 0
        invariant
            left <= n,
            old(o)@ + le_bytes(v as int, n as nat) == o@ + le_bytes(rest as int, left as nat),
        decreases left,
    {
        let (high, low) = split_low_byte(rest);
        proof {
            assert(le_bytes(rest as int, left as nat) =~= seq![low] + le_bytes(
                high as int,
                (left - 1) as nat,
            ));
        }
        o.push(low);
        rest = high;
        left = left - 1;
        proof {
            assert(old(o)@ + le_bytes(v as int, n as nat) =~= o@ + le_bytes(
                rest as int,
                left as nat,
            ));
        }
    }
}

/// The unsigned value of at most eight little-endian bytes.
pub fn get_le(s: &[u8]) -> (r: u64)
    requires
        s@.len() <= 8,
    ensures
        r == le_unsigned(s@),
{
    let mut acc: u64 = 0;
    let mut i: usize = s.len();
    proof {
        assert(s@.skip(i as int) =~= Seq::<u8>::empty());
    }
    while i > 0
        invariant
            i <= s@.len() <= 8,
            acc == le_unsigned(s@.skip(i as int)),
        decreases i,
    {
        i = i - 1;
        proof {
            let t = s@.skip(i as int);
            assert(t.drop_first() =~= s@.skip(i + 1));
            lemma_le_unsigned_bound(t);
            lemma_pow256_grows(t.len(), 8);
            lemma_pow256_values();
        }
        acc = acc * 256 + s[i] as u64;
    }
    proof {
        assert(s@.skip(0) =~= s@);
    }
    acc
}

/// The two's-complement value of one to eight little-endian bytes.
pub fn get_le_signed(s: &[u8]) -> (r: i64)
    requires
        0 < s@.len() <= 8,
    ensures
        r == le_signed(s@),
{
    let u: u64 = get_le(s);
    proof {
        lemma_le_signed_unsigned(s@);
        lemma_le_unsigned_bound(s@);
        lemma_pow256_grows((s@.len() - 1) as nat, 7);
        reveal_with_fuel(pow256, 9);
    }
    if s[s.len() - 1] >= 128 {
        let mut wrap: i128 = 1;
        let mut i: usize = 0;
        while i < s.len()
            invariant
                i <= s@.len() <= 8,
                wrap == pow256(i as nat),
            decreases s@.len() - i,
        {
            proof {
                lemma_pow256_grows(i as nat, 7);
                reveal_with_fuel(pow256, 9);
            }
            wrap = wrap * 256;
            i = i + 1;
        }
        (u as i128 - wrap) as i64
    } else {
        u as i64
    }
}

/// The shortest big-endian two's-complement byte string of `v`.
pub fn put_min_be(v: i128) -> (r: Vec<u8>)
    ensures
        r@ == min_be_bytes(v as int),
{
    let mut reversed: Vec<u8> = Vec::new();
    let mut rest: i128 = v;
    while rest < -128 || rest >= 128
        invariant
            min_be_bytes(v as int) == min_be_bytes(rest as int) + reversed@.reverse(),
        decreases (if rest < 0 { -rest } else { rest as int }),
    {
        let (high, low) = split_low_byte(rest);
        let ghost before = reversed@;
        reversed.push(low);
        proof {
            assert(reversed@.reverse() =~= seq![low] + before.reverse());
            assert(min_be_bytes(rest as int) + before.reverse() =~= min_be_bytes(high as int)
                + reversed@.reverse());
        }
        rest = high;
    }
    let (_, low) = split_low_byte(rest);
    let ghost before = reversed@;
    reversed.push(low);
    proof {
        assert(min_be_bytes(rest as int) + before.reverse() =~= reversed@.reverse());
    }
    let mut r: Vec<u8> = Vec::new();
    let mut i: usize = reversed.len();
    while i > 0
        invariant
            i <= reversed@.len(),
            r@ == reversed@.skip(i as int).reverse(),
        decreases i,
    {
        i = i - 1;
        proof {
            assert(reversed@.skip(i as int).reverse() =~= reversed@.skip(i + 1).reverse().push(
                reversed@[i as int],
            ));
        }
        r.push(reversed[i]);
    }
    proof {
        assert(reversed@.skip(0) =~= reversed@);
    }
    r
}

/// The two's-complement value of at most sixteen big-endian bytes; zero for none.
pub fn get_be_signed(s: &[u8]) -> (r: i128)
    requires
        s@.len() <= 16,
    ensures
        r == be_signed(s@),
{
    if s.len() == 0 {
        return 0;
    }
    let mut acc: i128 = if s[0] >= 128 {
        s[0] as i128 - 256
    } else {
        s[0] as i128
    };
    let mut i: usize = 1;
    proof {
        assert(s@.take(1) =~= seq![s@[0]]);
    }
    while i < s.len()
        invariant
            1 <= i <= s@.len() <= 16,
            acc == be_signed(s@.take(i as int)),
            -128 * pow256((i - 1) as nat) <= acc < 128 * pow256((i - 1) as nat),
        decreases s@.len() - i,
    {
        proof {
            assert(s@.take(i + 1).drop_last() =~= s@.take(i as int));
            lemma_pow256_grows(i as nat, 15);
            lemma_pow256_values();
        }
        acc = acc * 256 + s[i] as i128;
        i = i + 1;
    }
    proof {
        assert(s@.take(i as int) =~= s@);
    }
    acc
}

/// Whether two byte strings are the same.
pub fn same(a: &[u8], b: &[u8]) -> (r: bool)
    ensures
        r == (a@ == b@),
{
    if a.len() != b.len() {
        return false;
    }
    let mut i: usize = 0;
    while i < a.len()
        invariant
            i <= a@.len() == b@.len(),
            forall|k: int| 0 <= k < i ==> a@[k] == b@[k],
        decreases a@.len() - i,
    {
        if a[i] != b[i] {
            return false;
        }
        i = i + 1;
    }
    proof {
        assert(a@ =~= b@);
    }
    true
}

/// A bounds-checked reader over a byte slice.
pub struct Cur<'a> {
    pub b: &'a [u8],
    pub p: usize,
}

impl<'a> Cur<'a> {
    /// The position never passes the end of the input.
    pub open spec fn wf(&self) -> bool {
        self.p <= self.b@.len()
    }

    /// Whether `n` more bytes are left.
    pub open spec fn has(&self, n: int) -> bool {
        self.p + n <= self.b@.len()
    }

    /// The next `n` bytes.
    pub open spec fn ahead(&self, n: int) -> Seq<u8> {
        self.b@.subrange(self.p as int, self.p + n)
    }

    /// The reader `n` bytes further on.
    pub open spec fn moved_to(&self, other: &Self, n: int) -> bool {
        &&& other.b == self.b
        &&& other.p == self.p + n
    }

    pub fn take(&mut self, n: usize) -> (r: Option<&'a [u8]>)
        requires
            old(self).wf(),
        ensures
            final(self).wf(),
            r is Some <==> old(self).has(n as int),
            r matches Some(s) ==> s@ == old(self).ahead(n as int) && old(self).moved_to(
                final(self),
                n as int,
            ),
            r is None ==> old(self).moved_to(final(self), 0),
    {
        if n > self.b.len() - self.p {
            return None;
        }
        let s = vstd::slice::slice_subrange(self.b, self.p, self.p + n);
        self.p = self.p + n;
        Some(s)
    }

    pub fn u8(&mut self) -> (r: Option<u8>)
        requires
            old(self).wf(),
        ensures
            final(self).wf(),
            r is Some <==> old(self).has(1),
            r matches Some(v) ==> v == old(self).b@[old(self).p as int] && old(self).moved_to(
                final(self),
                1,
            ),
            r is None ==> old(self).moved_to(final(self), 0),
    {
        match self.take(1) {
            Some(s) => Some(s[0]),
            None => None,
        }
    }

    pub fn u32(&mut self) -> (r: Option<u32>)
        requires
            old(self).wf(),
        ensures
            final(self).wf(),
            r is Some <==> old(self).has(4),
            r matches Some(v) ==> v == le_unsigned(old(self).ahead(4)) && old(self).moved_to(
                final(self),
                4,
            ),
            r is None ==> old(self).moved_to(final(self), 0),
    {
        match self.take(4) {
            Some(s) => {
                proof {
                    lemma_le_unsigned_bound(s@);
                    lemma_pow256_values();
                }
                Some(get_le(s) as u32)
            },
            None => None,
        }
    }

    pub fn i32(&mut self) -> (r: Option<i32>)
        requires
            old(self).wf(),
        ensures
            final(self).wf(),
            r is Some <==> old(self).has(4),
            r matches Some(v) ==> v == le_signed(old(self).ahead(4)) && old(self).moved_to(
                final(self),
                4,
            ),
            r is None ==> old(self).moved_to(final(self), 0),
    {
        match self.take(4) {
            Some(s) => {
                proof {
                    lemma_le_signed_unsigned(s@);
                    reveal_with_fuel(pow256, 4);
                }
                Some(get_le_signed(s) as i32)
            },
            None => None,
        }
    }

    pub fn u64(&mut self) -> (r: Option<u64>)
        requires
            old(self).wf(),
        ensures
            final(self).wf(),
            r is Some <==> old(self).has(8),
            r matches Some(v) ==> v == le_unsigned(old(self).ahead(8)) && old(self).moved_to(
                final(self),
                8,
            ),
            r is None ==> old(self).moved_to(final(self), 0),
    {
        match self.take(8) {
            Some(s) => Some(get_le(s)),
            None => None,
        }
    }
}

/// Whether byte `i` of a string is the digit of a number at place `i` in base 256, two's
/// complement for a negative number: the low byte first.
pub open spec fn spells(s: Seq<u8>, v: int) -> bool {
    forall|i: int| 0 <= i < s.len() ==> #[trigger] s[i] as int == digit_256(v, i)
}

/// The digit of a number at place `i` in base 256.
pub open spec fn digit_256(v: int, i: int) -> int {
    (v / pow(256, i as nat)) % 256
}

/// Dividing by 256 moves every digit one place down.
proof fn lemma_digit_moves(v: int, i: int)
    requires
        i > 0,
    ensures
        digit_256(v, i) == digit_256(v / 256, i - 1),
{
    let p = pow(256, (i - 1) as nat);
    lemma_pow_positive(256, (i - 1) as nat);
    assert(pow(256, i as nat) == 256 * p) by {
        reveal(pow);
    }
    let q = v / 256;
    let r = v % 256;
    let q2 = q / p;
    let r2 = q % p;
    assert(q == q2 * p + r2 && 0 <= r2 < p) by (nonlinear_arith)
        requires
            p > 0,
            q2 == q / p,
            r2 == q % p,
    ;
    assert(v == 256 * q + r);
    assert(v == q2 * (256 * p) + (256 * r2 + r)) by (nonlinear_arith)
        requires
            v == 256 * q + r,
            q == q2 * p + r2,
    ;
    lemma_fundamental_div_mod_converse(v, 256 * p, q2, 256 * r2 + r);
}

/// Digit 0 is the remainder.
proof fn lemma_digit_first(v: int)
    ensures
        digit_256(v, 0) == v % 256,
{
    reveal(pow);
    assert(pow(256, 0) == 1);
}

/// A number is written low byte first: `n` bytes, each the digit of its place.
pub proof fn law_le_bytes_are_the_digits(v: int, n: nat)
    ensures
        le_bytes(v, n).len() == n,
        spells(le_bytes(v, n), v),
    decreases n,
{
    lemma_le_bytes_len(v, n);
    if n > 0 {
        law_le_bytes_are_the_digits(v / 256, (n - 1) as nat);
        lemma_digit_first(v);
        let s = le_bytes(v, n);
        let rest = le_bytes(v / 256, (n - 1) as nat);
        assert forall|i: int| 0 <= i < s.len() implies #[trigger] s[i] as int == digit_256(
            v,
            i,
        ) by {
            if i > 0 {
                assert(s[i] == rest[i - 1]);
                lemma_digit_moves(v, i);
            }
        }
    }
}

/// Bytes are read low byte first: the number read has them as its digits, and lies in the
/// range of an unsigned number of that many bytes.
pub proof fn law_le_unsigned_has_the_digits(s: Seq<u8>)
    ensures
        spells(s, le_unsigned(s)),
        0 <= le_unsigned(s) < pow(256, s.len()),
    decreases s.len(),
{
    reveal(pow);
    if s.len() > 0 {
        let v = le_unsigned(s);
        let rest = s.drop_first();
        law_le_unsigned_has_the_digits(rest);
        lemma_digit_first(v);
        assert(v / 256 == le_unsigned(rest));
        assert forall|i: int| 0 <= i < s.len() implies #[trigger] s[i] as int == digit_256(
            v,
            i,
        ) by {
            if i > 0 {
                assert(s[i] == rest[i - 1]);
                lemma_digit_moves(v, i);
            }
        }
    }
}

/// Signed bytes are read low byte first, in two's complement: the number read has them as its
/// digits, and lies in the range of a signed number of that many bytes.
pub proof fn law_le_signed_has_the_digits(s: Seq<u8>)
    requires
        s.len() > 0,
    ensures
        spells(s, le_signed(s)),
        -128 * pow(256, (s.len() - 1) as nat) <= le_signed(s) < 128 * pow(
            256,
            (s.len() - 1) as nat,
        ),
    decreases s.len(),
{
    reveal(pow);
    let v = le_signed(s);
    lemma_digit_first(v);
    if s.len() > 1 {
        let rest = s.drop_first();
        law_le_signed_has_the_digits(rest);
        assert(v / 256 == le_signed(rest));
        assert forall|i: int| 0 <= i < s.len() implies #[trigger] s[i] as int == digit_256(
            v,
            i,
        ) by {
            if i > 0 {
                assert(s[i] == rest[i - 1]);
                lemma_digit_moves(v, i);
            }
        }
    } else {
        assert(pow(256, 0) == 1);
    }
}

/// Signed big-endian bytes are those of the little-endian number turned round.
pub proof fn law_be_signed_is_le_turned_round(s: Seq<u8>)
    ensures
        be_signed(s) == le_signed(s.reverse()),
    decreases s.len(),
{
    let t = s.reverse();
    if s.len() > 1 {
        law_be_signed_is_le_turned_round(s.drop_last());
        assert(t.drop_first() =~= s.drop_last().reverse());
    }
}

/// A number of any size is written big-endian in the fewest bytes that hold it: read low byte
/// first from the back, they are its digits, the sign is kept, and no shorter string reads as
/// the number.
pub proof fn law_min_be_bytes_are_the_digits(v: int, s: Seq<u8>)
    ensures
        spells(min_be_bytes(v).reverse(), v),
        min_be_bytes(v).len() > 0,
        -128 * pow(256, (min_be_bytes(v).len() - 1) as nat) <= v < 128 * pow(
            256,
            (min_be_bytes(v).len() - 1) as nat,
        ),
        s.len() > 0 && be_signed(s) == v ==> min_be_bytes(v).len() <= s.len(),
{
    lemma_min_be_inverse(v);
    law_be_signed_is_le_turned_round(min_be_bytes(v));
    law_le_signed_has_the_digits(min_be_bytes(v).reverse());
    if s.len() > 0 && be_signed(s) == v {
        lemma_min_be_shortest(v, s);
    }
}

/// Whether the `n` bytes of `b` from position `p` on are the digits of a number, low byte
/// first.
pub open spec fn spells_at(b: Seq<u8>, p: int, n: int, v: int) -> bool {
    &&& 0 <= p
    &&& p + n <= b.len()
    &&& forall|j: int| 0 <= j < n ==> #[trigger] b[p + j] as int == digit_256(v, j)
}

pub proof fn lemma_stands_spells(b: Seq<u8>, p: int, v: int, n: nat)
    requires
        stands_at(b, p, le_bytes(v, n)),
    ensures
        spells_at(b, p, n as int, v),
{
    law_le_bytes_are_the_digits(v, n);
    let s = le_bytes(v, n);
    assert forall|j: int| 0 <= j < n implies #[trigger] b[p + j] as int == digit_256(v, j) by {
        assert(b.subrange(p, p + s.len())[j] == s[j]);
    }
}

/// Reading and writing are inverse on every byte string: what is read is written back as the
/// same bytes.
pub proof fn law_read_numbers_write_back(s: Seq<u8>)
    ensures
        le_bytes(le_unsigned(s), s.len()) == s,
        s.len() > 0 ==> le_bytes(le_signed(s), s.len()) == s,
{
    law_le_unsigned_has_the_digits(s);
    law_le_bytes_are_the_digits(le_unsigned(s), s.len());
    assert forall|i: int| 0 <= i < s.len() implies le_bytes(le_unsigned(s), s.len())[i] == s[i] by {
        assert(s[i] as int == digit_256(le_unsigned(s), i));
    }
    assert(le_bytes(le_unsigned(s), s.len()) =~= s);
    if s.len() > 0 {
        law_le_signed_has_the_digits(s);
        law_le_bytes_are_the_digits(le_signed(s), s.len());
        assert forall|i: int| 0 <= i < s.len() implies le_bytes(le_signed(s), s.len())[i]
            == s[i] by {
            assert(s[i] as int == digit_256(le_signed(s), i));
        }
        assert(le_bytes(le_signed(s), s.len()) =~= s);
    }
}

/// Two strings that stand one behind the other stand there joined.
pub proof fn lemma_stands_join(b: Seq<u8>, p: int, s: Seq<u8>, t: Seq<u8>)
    requires
        stands_at(b, p, s),
        stands_at(b, p + s.len(), t),
    ensures
        stands_at(b, p, s + t),
{
    assert(b.subrange(p, p + (s + t).len()) =~= b.subrange(p, p + s.len()) + b.subrange(
        p + s.len(),
        p + s.len() + t.len(),
    ));
}

/// Where a number is read from some bytes, they are the bytes it is written as.
pub proof fn lemma_read_stands(b: Seq<u8>, p: int, n: int)
    requires
        0 <= p,
        0 < n,
        p + n <= b.len(),
    ensures
        stands_at(b, p, le_bytes(le_unsigned(b.subrange(p, p + n)), n as nat)),
        stands_at(b, p, le_bytes(le_signed(b.subrange(p, p + n)), n as nat)),
{
    law_read_numbers_write_back(b.subrange(p, p + n));
}

/// The digits of an unsigned number determine it.
pub proof fn lemma_digits_are_unique(s: Seq<u8>, v: int)
    requires
        spells(s, v),
        0 <= v < pow256(s.len()),
    ensures
        le_unsigned(s) == v,
{
    law_le_bytes_are_the_digits(v, s.len());
    let t = le_bytes(v, s.len());
    assert forall|i: int| 0 <= i < s.len() implies s[i] == t[i] by {
        assert(s[i] as int == digit_256(v, i));
        assert(t[i] as int == digit_256(v, i));
    }
    assert(s =~= t);
    lemma_le_unsigned_inverse(v, s.len());
}

/// Where the digits of an unsigned number stand, it is read.
pub proof fn lemma_read_spelled(b: Seq<u8>, p: int, n: int, v: int)
    requires
        0 <= n,
        spells_at(b, p, n, v),
        0 <= v < pow256(n as nat) || (n == 4 && 0 <= v <= u32::MAX) || (n == 8 && 0 <= v
            <= u64::MAX),
    ensures
        le_unsigned(b.subrange(p, p + n)) == v,
{
    lemma_pow256_values();
    let s = b.subrange(p, p + n);
    assert forall|i: int| 0 <= i < s.len() implies #[trigger] s[i] as int == digit_256(v, i) by {
        assert(s[i] == b[p + i]);
    }
    lemma_digits_are_unique(s, v);
}

/// Where the digits of a signed 32-bit number stand, it is read.
pub proof fn lemma_read_signed_spelled(b: Seq<u8>, p: int, v: i32)
    requires
        spells_at(b, p, 4, v as int),
    ensures
        le_signed(b.subrange(p, p + 4)) == v,
{
    lemma_pow256_values();
    reveal_with_fuel(pow256, 4);
    let s = b.subrange(p, p + 4);
    law_le_bytes_are_the_digits(v as int, 4);
    let t = le_bytes(v as int, 4);
    assert forall|i: int| 0 <= i < 4 implies s[i] == t[i] by {
        assert(s[i] == b[p + i]);
        assert(b[p + i] as int == digit_256(v as int, i));
        assert(t[i] as int == digit_256(v as int, i));
    }
    assert(s =~= t);
    lemma_le_signed_inverse(v as int, 4);
}

} // verus!
