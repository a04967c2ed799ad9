//! Text as sequences of characters: numbers in decimal and hexadecimal, trimming,
//! searching, joining.
use vstd::arithmetic::div_mod::lemma_div_denominator;
use vstd::arithmetic::power::lemma_pow_positive;
use vstd::arithmetic::power::pow;
use vstd::prelude::*;

verus! {

/// `String::push` of the standard library appends one character.
pub assume_specification[ std::string::String::push ](s: &mut std::string::String, ch: char)
    ensures
        final(s)@ == old(s)@.push(ch),
;

/// The character of a digit, up to hexadecimal `f`.
pub open spec fn digit_char(d: int) -> char {
    if d <= 0 {
        '0'
    } else if d == 1 {
        '1'
    } else if d == 2 {
        '2'
    } else if d == 3 {
        '3'
    } else if d == 4 {
        '4'
    } else if d == 5 {
        '5'
    } else if d == 6 {
        '6'
    } else if d == 7 {
        '7'
    } else if d == 8 {
        '8'
    } else if d == 9 {
        '9'
    } else if d == 10 {
        'a'
    } else if d == 11 {
        'b'
    } else if d == 12 {
        'c'
    } else if d == 13 {
        'd'
    } else if d == 14 {
        'e'
    } else {
        'f'
    }
}

/// A number in decimal, without leading zeros.
pub open spec fn decimal(n: nat) -> Seq<char>
    decreases n,
{
    if n < 10 {
        seq![digit_char(n as int)]
    } else {
        decimal(n / 10).push(digit_char((n % 10) as int))
    }
}

/// A signed number in decimal.
pub open spec fn signed_decimal(i: int) -> Seq<char> {
    if i < 0 {
        seq!['-'] + decimal((-i) as nat)
    } else {
        decimal(i as nat)
    }
}

/// The low `width` hexadecimal digits of a number, leading zeros kept.
pub open spec fn padded_hex(n: nat, width: nat) -> Seq<char>
    decreases width,
{
    if width == 0 {
        Seq::empty()
    } else {
        padded_hex(n / 16, (width - 1) as nat).push(digit_char((n % 16) as int))
    }
}

/// `16` to the power `n`.
pub open spec fn pow16(n: nat) -> nat
    decreases n,
{
    if n == 0 {
        1
    } else {
        16 * pow16((n - 1) as nat)
    }
}

pub proof fn lemma_padded_hex_len(n: nat, width: nat)
    ensures
        padded_hex(n, width).len() == width,
    decreases width,
{
    if width > 0 {
        lemma_padded_hex_len(n / 16, (width - 1) as nat);
    }
}

/// Numbers that fit in the digits written have different hexadecimal forms.
pub proof fn lemma_padded_hex_injective(m: nat, n: nat, width: nat)
    requires
        m < pow16(width),
        n < pow16(width),
        padded_hex(m, width) == padded_hex(n, width),
    ensures
        m == n,
    decreases width,
{
    if width > 0 {
        let (a, b) = (padded_hex(m, width), padded_hex(n, width));
        assert(a.drop_last() =~= padded_hex(m / 16, (width - 1) as nat));
        assert(b.drop_last() =~= padded_hex(n / 16, (width - 1) as nat));
        assert(a.last() == digit_char((m % 16) as int));
        assert(b.last() == digit_char((n % 16) as int));
        lemma_padded_hex_injective(m / 16, n / 16, (width - 1) as nat);
    }
}

fn digit(d: u64) -> (r: char)
    requires
        d < 16,
    ensures
        r == digit_char(d as int),
{
    match d {
        0 => '0',
        1 => '1',
        2 => '2',
        3 => '3',
        4 => '4',
        5 => '5',
        6 => '6',
        7 => '7',
        8 => '8',
        9 => '9',
        10 => 'a',
        11 => 'b',
        12 => 'c',
        13 => 'd',
        14 => 'e',
        _ => 'f',
    }
}

/// Append a number in decimal.
pub fn put_decimal(o: &mut String, n: u64)
    ensures
        final(o)@ == old(o)@ + decimal(n as nat),
    decreases n,
{
    if n >= 10 {
        put_decimal(o, n / 10);
    }
    o.push(digit(n % 10));
    proof {
        assert(o@ =~= old(o)@ + decimal(n as nat));
    }
}

/// Append a signed number in decimal.
pub fn put_signed_decimal(o: &mut String, i: i64)
    ensures
        final(o)@ == old(o)@ + signed_decimal(i as int),
{
    if i < 0 {
        o.push('-');
        put_decimal(o, (-(i as i128)) as u64);
    } else {
        put_decimal(o, i as u64);
    }
    proof {
        assert(o@ =~= old(o)@ + signed_decimal(i as int));
    }
}

/// Append the low `width` hexadecimal digits of a number.
pub fn put_padded_hex(o: &mut String, n: u64, width: u64)
    ensures
        final(o)@ == old(o)@ + padded_hex(n as nat, width as nat),
    decreases width,
{
    if width > 0 {
        put_padded_hex(o, n / 16, width - 1);
        o.push(digit(n % 16));
    }
    proof {
        assert(o@ =~= old(o)@ + padded_hex(n as nat, width as nat));
    }
}

/// The characters of a string.
pub fn chars_of(s: &str) -> (r: Vec<char>)
    ensures
        r@ == s@,
{
    broadcast use vstd::string::axiom_spec_iter;

    let mut out: Vec<char> = Vec::new();
    for c in it: s.chars()
        invariant
            out@ == it.seq().take(it.index() as int),
            it.seq() == s@,
    {
        out.push(c);
    }
    out
}

/// The string of the characters from `from` up to `to`.
pub fn text_between(cs: &[char], from: usize, to: usize) -> (r: String)
    requires
        from <= to <= cs@.len(),
    ensures
        r@ == cs@.subrange(from as int, to as int),
{
    let mut out: String = String::new();
    let mut i: usize = from;
    proof {
        assert(out@ =~= cs@.subrange(from as int, from as int));
    }
    while i < to
        invariant
            from <= i <= to <= cs@.len(),
            out@ == cs@.subrange(from as int, i as int),
        decreases to - i,
    {
        out.push(cs[i]);
        i = i + 1;
        proof {
            assert(cs@.subrange(from as int, i as int) =~= cs@.subrange(
                from as int,
                i - 1,
            ).push(cs@[i - 1]));
        }
    }
    out
}

/// The Unicode white space characters.
pub open spec fn is_white(c: char) -> bool {
    let n = c as u32;
    ||| 0x9 <= n <= 0xd
    ||| n == 0x20
    ||| n == 0x85
    ||| n == 0xa0
    ||| n == 0x1680
    ||| 0x2000 <= n <= 0x200a
    ||| n == 0x2028
    ||| n == 0x2029
    ||| n == 0x202f
    ||| n == 0x205f
    ||| n == 0x3000
}

fn white(c: char) -> (r: bool)
    ensures
        r == is_white(c),
{
    let n: u32 = c as u32;
    (0x9 <= n && n <= 0xd) || n == 0x20 || n == 0x85 || n == 0xa0 || n == 0x1680 || (0x2000 <= n
        && n <= 0x200a) || n == 0x2028 || n == 0x2029 || n == 0x202f || n == 0x205f || n == 0x3000
}

/// Text without its leading white space.
pub open spec fn trim_start(s: Seq<char>) -> Seq<char>
    decreases s.len(),
{
    if s.len() > 0 && is_white(s[0]) {
        trim_start(s.drop_first())
    } else {
        s
    }
}

/// Text without its trailing white space.
pub open spec fn trim_end(s: Seq<char>) -> Seq<char>
    decreases s.len(),
{
    if s.len() > 0 && is_white(s.last()) {
        trim_end(s.drop_last())
    } else {
        s
    }
}

/// Text without leading and trailing white space.
pub open spec fn trimmed(s: Seq<char>) -> Seq<char> {
    trim_end(trim_start(s))
}

/// Text without leading occurrences of a character.
pub open spec fn strip_start(s: Seq<char>, c: char) -> Seq<char>
    decreases s.len(),
{
    if s.len() > 0 && s[0] == c {
        strip_start(s.drop_first(), c)
    } else {
        s
    }
}

/// Text without trailing occurrences of a character.
pub open spec fn strip_end(s: Seq<char>, c: char) -> Seq<char>
    decreases s.len(),
{
    if s.len() > 0 && s.last() == c {
        strip_end(s.drop_last(), c)
    } else {
        s
    }
}

/// The part of `cs[from..to]` that is left when white space is trimmed.
pub fn trim_range(cs: &[char], from: usize, to: usize) -> (r: (usize, usize))
    requires
        from <= to <= cs@.len(),
    ensures
        from <= r.0 <= r.1 <= to,
        cs@.subrange(r.0 as int, r.1 as int) == trimmed(cs@.subrange(from as int, to as int)),
{
    let mut a: usize = from;
    while a < to && white(cs[a])
        invariant
            from <= a <= to <= cs@.len(),
            trim_start(cs@.subrange(from as int, to as int)) == trim_start(
                cs@.subrange(a as int, to as int),
            ),
        decreases to - a,
    {
        proof {
            assert(cs@.subrange(a as int, to as int).drop_first() =~= cs@.subrange(
                a + 1,
                to as int,
            ));
        }
        a = a + 1;
    }
    let mut b: usize = to;
    while b > a && white(cs[b - 1])
        invariant
            a <= b <= to <= cs@.len(),
            trim_end(cs@.subrange(a as int, to as int)) == trim_end(
                cs@.subrange(a as int, b as int),
            ),
        decreases b - a,
    {
        proof {
            assert(cs@.subrange(a as int, b as int).drop_last() =~= cs@.subrange(
                a as int,
                b - 1,
            ));
        }
        b = b - 1;
    }
    (a, b)
}

/// The part of `cs[from..to]` that is left when a character is stripped at the end.
pub fn strip_end_range(cs: &[char], from: usize, to: usize, c: char) -> (r: usize)
    requires
        from <= to <= cs@.len(),
    ensures
        from <= r <= to,
        cs@.subrange(from as int, r as int) == strip_end(cs@.subrange(from as int, to as int), c),
{
    let mut b: usize = to;
    while b > from && cs[b - 1] == c
        invariant
            from <= b <= to <= cs@.len(),
            strip_end(cs@.subrange(from as int, to as int), c) == strip_end(
                cs@.subrange(from as int, b as int),
                c,
            ),
        decreases b - from,
    {
        proof {
            assert(cs@.subrange(from as int, b as int).drop_last() =~= cs@.subrange(
                from as int,
                b - 1,
            ));
        }
        b = b - 1;
    }
    b
}

/// The part of `cs[from..to]` that is left when a character is stripped at the start.
pub fn strip_start_range(cs: &[char], from: usize, to: usize, c: char) -> (r: usize)
    requires
        from <= to <= cs@.len(),
    ensures
        from <= r <= to,
        cs@.subrange(r as int, to as int) == strip_start(cs@.subrange(from as int, to as int), c),
{
    let mut a: usize = from;
    while a < to && cs[a] == c
        invariant
            from <= a <= to <= cs@.len(),
            strip_start(cs@.subrange(from as int, to as int), c) == strip_start(
                cs@.subrange(a as int, to as int),
                c,
            ),
        decreases to - a,
    {
        proof {
            assert(cs@.subrange(a as int, to as int).drop_first() =~= cs@.subrange(
                a + 1,
                to as int,
            ));
        }
        a = a + 1;
    }
    a
}

/// The value of a decimal digit.
pub open spec fn digit_value(c: char) -> Option<int> {
    if '0' <= c <= '9' {
        Some(c as u32 - '0' as u32)
    } else {
        None
    }
}

/// The number a string of decimal digits stands for; none if it holds anything else.
pub open spec fn digits_value(s: Seq<char>) -> Option<int>
    decreases s.len(),
{
    if s.len() == 0 {
        Some(0)
    } else {
        match (digits_value(s.drop_last()), digit_value(s.last())) {
            (Some(high), Some(low)) => Some(10 * high + low),
            _ => None,
        }
    }
}

/// Text as an unsigned number: decimal digits, at least one, after at most one `+`, in the range
/// of a `usize`.
pub open spec fn unsigned(s: Seq<char>) -> Option<usize> {
    let ds = if s.len() > 1 && s[0] == '+' {
        s.skip(1)
    } else {
        s
    };
    match digits_value(ds) {
        Some(v) => if ds.len() > 0 && v <= usize::MAX {
            Some(v as usize)
        } else {
            None
        },
        None => None,
    }
}

proof fn lemma_digits_grow(s: Seq<char>, i: int)
    requires
        0 <= i <= s.len(),
        digits_value(s) is Some,
    ensures
        digits_value(s.take(i)) matches Some(v) && 0 <= v <= digits_value(s)->0,
    decreases s.len(),
{
    if i < s.len() {
        lemma_digits_grow(s.drop_last(), i);
        assert(s.drop_last().take(i) =~= s.take(i));
    } else {
        assert(s.take(i) =~= s);
        if s.len() > 0 {
            lemma_digits_grow(s.drop_last(), s.len() - 1);
            assert(s.drop_last().take(s.len() - 1) =~= s.drop_last());
        }
    }
}

proof fn lemma_digits_all(s: Seq<char>, i: int)
    requires
        0 <= i < s.len(),
        digit_value(s[i]) is None,
    ensures
        digits_value(s) is None,
    decreases s.len(),
{
    if i < s.len() - 1 {
        lemma_digits_all(s.drop_last(), i);
    }
}

/// Read `cs[from..to]` as an unsigned number.
pub fn parse_unsigned(cs: &[char], from: usize, to: usize) -> (r: Option<usize>)
    requires
        from <= to <= cs@.len(),
    ensures
        r == unsigned(cs@.subrange(from as int, to as int)),
{
    let ghost s = cs@.subrange(from as int, to as int);
    let start: usize = if to - from > 1 && cs[from] == '+' {
        from + 1
    } else {
        from
    };
    let ghost ds = cs@.subrange(start as int, to as int);
    proof {
        if start > from {
            assert(s.skip(1) =~= ds);
        }
    }
    if start == to {
        return None;
    }
    let mut acc: usize = 0;
    let mut i: usize = start;
    proof {
        assert(ds.take(0) =~= Seq::<char>::empty());
    }
    while i < to
        invariant
            from <= start <= i <= to <= cs@.len(),
            ds == cs@.subrange(start as int, to as int),
            digits_value(ds.take(i - start)) == Some(acc as int),
            unsigned(cs@.subrange(from as int, to as int)) == match digits_value(ds) {
                Some(v) => if ds.len() > 0 && v <= usize::MAX {
                    Some(v as usize)
                } else {
                    None
                },
                None => None,
            },
        decreases to - i,
    {
        let c: char = cs[i];
        proof {
            assert(ds[i - start] == c);
            assert(ds.take(i - start + 1).drop_last() =~= ds.take(i - start));
        }
        if !('0' <= c && c <= '9') {
            proof {
                lemma_digits_all(ds, i - start);
            }
            return None;
        }
        let d: usize = (c as u32 - '0' as u32) as usize;
        proof {
            if digits_value(ds) is Some {
                lemma_digits_grow(ds, i - start + 1);
            }
        }
        if acc > usize::MAX / 10 || acc * 10 > usize::MAX - d {
            return None;
        }
        acc = acc * 10 + d;
        i = i + 1;
    }
    proof {
        assert(ds.take(i - start) =~= ds);
    }
    Some(acc)
}

/// Whether a text starts with another.
pub open spec fn starts_with(s: Seq<char>, prefix: Seq<char>) -> bool {
    prefix.len() <= s.len() && s.take(prefix.len() as int) == prefix
}

pub fn has_prefix(s: &[char], prefix: &[char]) -> (r: bool)
    ensures
        r == starts_with(s@, prefix@),
{
    if prefix.len() > s.len() {
        return false;
    }
    let mut i: usize = 0;
    while i < prefix.len()
        invariant
            i <= prefix@.len() <= s@.len(),
            forall|k: int| 0 <= k < i ==> s@[k] == prefix@[k],
        decreases prefix@.len() - i,
    {
        if s[i] != prefix[i] {
            proof {
                assert(s@.take(prefix@.len() as int)[i as int] != prefix@[i as int]);
            }
            return false;
        }
        i = i + 1;
    }
    proof {
        assert(s@.take(prefix@.len() as int) =~= prefix@);
    }
    true
}

/// Whether a character is the digit of a number, `0` to `9` and `a` to `f`.
pub open spec fn writes_digit(c: char, d: int) -> bool {
    if d < 10 {
        c as u32 == 48 + d
    } else {
        c as u32 == 87 + d
    }
}

proof fn lemma_digit_char(d: int)
    requires
        0 <= d < 16,
    ensures
        writes_digit(digit_char(d), d),
        !is_white(digit_char(d)),
        d < 10 ==> digit_value(digit_char(d)) == Some(d),
{
}

/// Dividing by the base moves every digit one place down.
proof fn lemma_place_moves(n: int, base: int, i: int)
    requires
        n >= 0,
        base > 0,
        i > 0,
    ensures
        n / pow(base, i as nat) == (n / base) / pow(base, (i - 1) as nat),
{
    lemma_pow_positive(base, (i - 1) as nat);
    assert(pow(base, i as nat) == base * pow(base, (i - 1) as nat)) by {
        reveal(pow);
    }
    lemma_div_denominator(n, base, pow(base, (i - 1) as nat));
}

/// A number is written in decimal: the character `i` places from the end is the digit of
/// `10^i`, and there are no more digits than the number needs.
pub proof fn law_decimal_writes_the_digits(n: nat)
    ensures
        decimal(n).len() > 0,
        n < pow(10, decimal(n).len()),
        decimal(n).len() > 1 ==> pow(10, (decimal(n).len() - 1) as nat) <= n,
        forall|i: int|
            0 <= i < decimal(n).len() ==> writes_digit(
                decimal(n)[decimal(n).len() - 1 - i],
                (n as int / #[trigger] pow(10, i as nat)) % 10,
            ),
    decreases n,
{
    reveal(pow);
    let s = decimal(n);
    assert(pow(10, 0) == 1);
    assert(pow(10, 1) == 10) by {
        assert(pow(10, 1) == 10 * pow(10, 0));
    }
    lemma_digit_char((n % 10) as int);
    if n >= 10 {
        let high = decimal(n / 10);
        law_decimal_writes_the_digits(n / 10);
        let l = high.len();
        assert(pow(10, l + 1) == 10 * pow(10, l));
        assert(pow(10, l) == 10 * pow(10, (l - 1) as nat));
        assert(n == 10 * (n / 10) + n % 10);
        assert forall|i: int| 0 <= i < s.len() implies writes_digit(
            s[s.len() - 1 - i],
            (n as int / #[trigger] pow(10, i as nat)) % 10,
        ) by {
            if i > 0 {
                lemma_place_moves(n as int, 10, i);
                assert(s[s.len() - 1 - i] == high[high.len() - 1 - (i - 1)]);
                let p = pow(10, (i - 1) as nat);
                assert(writes_digit(
                    high[high.len() - 1 - (i - 1)],
                    ((n / 10) as int / pow(10, (i - 1) as nat)) % 10,
                ));
            }
        }
    } else {
        assert forall|i: int| 0 <= i < s.len() implies writes_digit(
            s[s.len() - 1 - i],
            (n as int / #[trigger] pow(10, i as nat)) % 10,
        ) by {
            assert(i == 0);
        }
    }
}

/// A negative number is written as a minus sign and its absolute value, any other as it is.
pub proof fn law_signed_decimal_writes_the_sign(n: nat)
    ensures
        signed_decimal(n as int) == decimal(n),
        n > 0 ==> signed_decimal(-n) == seq!['-'] + decimal(n),
{
}

/// A number is written in hexadecimal at a fixed width: the character `i` places from the end is
/// the digit of `16^i`.
pub proof fn law_padded_hex_writes_the_digits(n: nat, width: nat)
    ensures
        padded_hex(n, width).len() == width,
        forall|i: int|
            0 <= i < width ==> writes_digit(
                padded_hex(n, width)[width - 1 - i],
                (n as int / #[trigger] pow(16, i as nat)) % 16,
            ),
    decreases width,
{
    lemma_padded_hex_len(n, width);
    if width > 0 {
        let s = padded_hex(n, width);
        let high = padded_hex(n / 16, (width - 1) as nat);
        lemma_padded_hex_len(n / 16, (width - 1) as nat);
        law_padded_hex_writes_the_digits(n / 16, (width - 1) as nat);
        lemma_digit_char((n % 16) as int);
        assert(pow(16, 0) == 1) by {
            reveal(pow);
        }
        assert forall|i: int| 0 <= i < width implies writes_digit(
            s[width - 1 - i],
            (n as int / #[trigger] pow(16, i as nat)) % 16,
        ) by {
            if i > 0 {
                lemma_place_moves(n as int, 16, i);
                assert(s[width - 1 - i] == high[width - 1 - i]);
                assert(writes_digit(
                    high[(width - 1) - 1 - (i - 1)],
                    ((n / 16) as int / pow(16, (i - 1) as nat)) % 16,
                ));
            }
        }
    }
}

proof fn lemma_digit_range(c: char)
    ensures
        digit_value(c) is Some <==> 48 <= c as u32 <= 57,
{
}

/// Digits are read in decimal: a string has a value if and only if each of its characters is
/// one of `0` to `9`; one digit stands for its number, and a digit behind others multiplies
/// their value by ten and adds its own.
pub proof fn law_digits_read_in_decimal(s: Seq<char>, c: char)
    ensures
        digits_value(s) is Some <==> forall|i: int|
            0 <= i < s.len() ==> 48 <= (#[trigger] s[i]) as u32 <= 57,
        digits_value(Seq::<char>::empty()) == Some(0int),
        digits_value(s) is Some && 48 <= c as u32 <= 57 ==> digits_value(s.push(c)) == Some(
            10 * digits_value(s)->0 + (c as u32 - 48),
        ),
    decreases s.len(),
{
    assert(s.push(c).drop_last() =~= s);
    if s.len() > 0 {
        let high = s.drop_last();
        law_digits_read_in_decimal(high, c);
        let last = s[s.len() - 1];
        lemma_digit_range(last);
        if forall|i: int| 0 <= i < s.len() ==> 48 <= (#[trigger] s[i]) as u32 <= 57 {
            assert forall|i: int| 0 <= i < high.len() implies 48 <= (#[trigger] high[i]) as u32
                <= 57 by {
                assert(s[i] == high[i]);
            }
            assert(48 <= last as u32 <= 57);
            assert(digits_value(s) is Some);
        }
        if digits_value(s) is Some {
            assert(digits_value(high) is Some);
            assert forall|i: int| 0 <= i < s.len() implies 48 <= (#[trigger] s[i]) as u32
                <= 57 by {
                if i < high.len() {
                    assert(s[i] == high[i]);
                }
            }
        }
    }
}

/// What is written in decimal reads back.
pub proof fn law_decimal_reads_back(n: nat)
    ensures
        digits_value(decimal(n)) == Some(n as int),
        n <= usize::MAX ==> unsigned(decimal(n)) == Some(n as usize),
        n <= usize::MAX ==> unsigned(seq!['+'] + decimal(n)) == Some(n as usize),
    decreases n,
{
    lemma_digit_char((n % 10) as int);
    let s = decimal(n);
    if n >= 10 {
        law_decimal_reads_back(n / 10);
        assert(s.drop_last() =~= decimal(n / 10));
    } else {
        assert(s.drop_last() =~= Seq::<char>::empty());
    }
    law_digits_read_in_decimal(s, '0');
    law_decimal_writes_the_digits(n);
    assert(48 <= s[0] as u32 <= 57);
    assert((seq!['+'] + s).skip(1) =~= s);
}

/// An unsigned number is read from digits alone, with or without one plus sign before them, if
/// it fits; nothing else is a number.
pub proof fn law_unsigned_reads_digits(s: Seq<char>)
    ensures
        s.len() > 0 && digits_value(s) is Some && digits_value(s)->0 <= usize::MAX ==> unsigned(s)
            == Some(digits_value(s)->0 as usize) && unsigned(seq!['+'] + s) == unsigned(s),
        unsigned(s) is Some ==> {
            ||| s.len() > 0 && digits_value(s) == Some(unsigned(s)->0 as int)
            ||| s.len() > 1 && s[0] == '+' && digits_value(s.skip(1)) == Some(
                unsigned(s)->0 as int,
            )
        },
{
    law_digits_read_in_decimal(s, '0');
    assert((seq!['+'] + s).skip(1) =~= s);
    if s.len() > 0 && digits_value(s) is Some {
        assert(48 <= s[0] as u32 <= 57);
        lemma_digits_grow(s, 0);
    }
    if s.len() > 1 && s[0] == '+' {
        law_digits_read_in_decimal(s.skip(1), '0');
        if digits_value(s.skip(1)) is Some {
            lemma_digits_grow(s.skip(1), 0);
        }
    }
}

/// The white space that is trimmed: tab, the line breaks, the space, and the spaces and
/// separators of Unicode.
pub proof fn law_white_space_is_unicodes(c: char)
    ensures
        is_white(c) <==> seq![
            '\t',
            '\n',
            '\u{b}',
            '\u{c}',
            '\r',
            ' ',
            '\u{85}',
            '\u{a0}',
            '\u{1680}',
            '\u{2000}',
            '\u{2001}',
            '\u{2002}',
            '\u{2003}',
            '\u{2004}',
            '\u{2005}',
            '\u{2006}',
            '\u{2007}',
            '\u{2008}',
            '\u{2009}',
            '\u{200a}',
            '\u{2028}',
            '\u{2029}',
            '\u{202f}',
            '\u{205f}',
            '\u{3000}',
        ].contains(c),
{
    let all = seq![
        '\t',
        '\n',
        '\u{b}',
        '\u{c}',
        '\r',
        ' ',
        '\u{85}',
        '\u{a0}',
        '\u{1680}',
        '\u{2000}',
        '\u{2001}',
        '\u{2002}',
        '\u{2003}',
        '\u{2004}',
        '\u{2005}',
        '\u{2006}',
        '\u{2007}',
        '\u{2008}',
        '\u{2009}',
        '\u{200a}',
        '\u{2028}',
        '\u{2029}',
        '\u{202f}',
        '\u{205f}',
        '\u{3000}',
    ];
    if all.contains(c) {
        let i = choose|i: int| 0 <= i < all.len() && all[i] == c;
        assert(is_white(all[i]));
    }
    if is_white(c) {
        let n = c as u32;
        let i: int = if 0x9 <= n <= 0xd {
            n - 0x9
        } else if n == 0x20 {
            5
        } else if n == 0x85 {
            6
        } else if n == 0xa0 {
            7
        } else if n == 0x1680 {
            8
        } else if 0x2000 <= n <= 0x200a {
            9 + (n - 0x2000)
        } else if n == 0x2028 {
            20
        } else if n == 0x2029 {
            21
        } else if n == 0x202f {
            22
        } else if n == 0x205f {
            23
        } else {
            24
        };
        assert(all[i] as u32 == n);
        assert(all[i] == c);
    }
}

/// Whether all characters of a string are white space.
pub open spec fn all_white(s: Seq<char>) -> bool {
    forall|i: int| 0 <= i < s.len() ==> is_white(#[trigger] s[i])
}

/// Trimming takes the white space off both ends and nothing else: a string that neither begins
/// nor ends with white space is what is left of it inside any white space.
pub proof fn law_trimming_takes_the_white_ends(before: Seq<char>, s: Seq<char>, after: Seq<char>)
    requires
        all_white(before),
        all_white(after),
        s.len() > 0 ==> !is_white(s[0]) && !is_white(s.last()),
    ensures
        trimmed(before + s + after) == s,
    decreases before.len() + after.len(),
{
    let whole = before + s + after;
    if before.len() > 0 {
        assert(is_white(before[0]));
        let rest = before.drop_first();
        assert(whole.drop_first() =~= rest + s + after);
        assert forall|i: int| 0 <= i < rest.len() implies is_white(#[trigger] rest[i]) by {
            assert(rest[i] == before[i + 1]);
        }
        law_trimming_takes_the_white_ends(rest, s, after);
    } else if s.len() > 0 {
        assert(whole =~= s + after);
        assert(trim_start(whole) == whole);
        lemma_trim_end_takes_white(s, after);
    } else {
        assert(whole =~= after);
        lemma_trim_start_takes_all(after);
        assert(s =~= Seq::<char>::empty());
    }
}

proof fn lemma_trim_end_takes_white(s: Seq<char>, after: Seq<char>)
    requires
        all_white(after),
        s.len() > 0,
        !is_white(s.last()),
    ensures
        trim_end(s + after) == s,
    decreases after.len(),
{
    if after.len() > 0 {
        assert(is_white(after[after.len() - 1]));
        assert((s + after).drop_last() =~= s + after.drop_last());
        lemma_trim_end_takes_white(s, after.drop_last());
    } else {
        assert(s + after =~= s);
    }
}

proof fn lemma_trim_start_takes_all(s: Seq<char>)
    requires
        all_white(s),
    ensures
        trim_start(s) == Seq::<char>::empty(),
    decreases s.len(),
{
    if s.len() > 0 {
        assert(is_white(s[0]));
        let rest = s.drop_first();
        assert forall|i: int| 0 <= i < rest.len() implies is_white(#[trigger] rest[i]) by {
            assert(rest[i] == s[i + 1]);
        }
        lemma_trim_start_takes_all(rest);
    } else {
        assert(s =~= Seq::<char>::empty());
    }
}

/// Stripping a character off an end takes all of its run there and nothing else.
pub proof fn law_stripping_takes_the_run(s: Seq<char>, n: nat, c: char)
    ensures
        (s.len() == 0 || s[0] != c) ==> strip_start(Seq::new(n, |i: int| c) + s, c) == s,
        (s.len() == 0 || s.last() != c) ==> strip_end(s + Seq::new(n, |i: int| c), c) == s,
    decreases n,
{
    let run = Seq::new(n, |i: int| c);
    if n > 0 {
        let less = Seq::new((n - 1) as nat, |i: int| c);
        law_stripping_takes_the_run(s, (n - 1) as nat, c);
        assert((run + s).drop_first() =~= less + s);
        assert((s + run).drop_last() =~= s + less);
        assert((run + s)[0] == c);
        assert((s + run).last() == c);
    } else {
        assert(run + s =~= s);
        assert(s + run =~= s);
    }
}

/// A string starts with a prefix if and only if it is the prefix with something behind it.
pub proof fn law_prefixes_are_followed(prefix: Seq<char>, rest: Seq<char>, s: Seq<char>)
    ensures
        starts_with(prefix + rest, prefix),
        starts_with(s, prefix) ==> s == prefix + s.skip(prefix.len() as int),
{
    assert((prefix + rest).take(prefix.len() as int) =~= prefix);
    if starts_with(s, prefix) {
        assert(s =~= s.take(prefix.len() as int) + s.skip(prefix.len() as int));
    }
}

/// Whether a text is a beginning, then a detail, then an end.
pub open spec fn names(s: Seq<char>, before: Seq<char>, detail: Seq<char>, after: Seq<char>) -> bool {
    &&& s.len() == before.len() + detail.len() + after.len()
    &&& s.take(before.len() as int) == before
    &&& s.subrange(before.len() as int, (before.len() + detail.len()) as int) == detail
    &&& s.skip((before.len() + detail.len()) as int) == after
}

pub proof fn lemma_names(before: Seq<char>, detail: Seq<char>, after: Seq<char>)
    ensures
        names(before + detail + after, before, detail, after),
{
    let s = before + detail + after;
    assert(s.take(before.len() as int) =~= before);
    assert(s.subrange(before.len() as int, (before.len() + detail.len()) as int) =~= detail);
    assert(s.skip((before.len() + detail.len()) as int) =~= after);
}

} // verus!
