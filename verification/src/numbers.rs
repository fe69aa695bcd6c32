//! Numbers as text, both ways.
use vstd::prelude::*;

use crate::text::chars_of;

verus! {

/// The digit of value `d`, for `d` below 16.
pub open spec fn digit_char(d: int) -> char {
    if d < 10 {
        ('0' as int + d) as char
    } else {
        ('a' as int + d - 10) as char
    }
}

/// `n` in decimal, without leading zeros.
pub open spec fn decimal(n: nat) -> Seq<char>
    decreases n,
{
    if n < 10 {
        seq![digit_char(n as int)]
    } else {
        decimal(n / 10).push(digit_char((n % 10) as int))
    }
}

/// `b` in hexadecimal, two digits.
pub open spec fn hex2(b: u8) -> Seq<char> {
    seq![digit_char(b as int / 16), digit_char(b as int % 16)]
}

/// `n` in hexadecimal, four digits.
pub open spec fn hex4(n: u16) -> Seq<char> {
    seq![
        digit_char(n as int / 4096),
        digit_char(n as int / 256 % 16),
        digit_char(n as int / 16 % 16),
        digit_char(n as int % 16),
    ]
}

/// Appends the digit of value `d`.
fn push_digit(out: &mut String, d: u8)
    requires
        d < 16,
    ensures
        final(out)@ == old(out)@.push(digit_char(d as int)),
{
    let ghost before = out@;
    let s: &str = match d {
        0 => "0",
        1 => "1",
        2 => "2",
        3 => "3",
        4 => "4",
        5 => "5",
        6 => "6",
        7 => "7",
        8 => "8",
        9 => "9",
        10 => "a",
        11 => "b",
        12 => "c",
        13 => "d",
        14 => "e",
        _ => "f",
    };
    proof {
        reveal_strlit("0");
        reveal_strlit("1");
        reveal_strlit("2");
        reveal_strlit("3");
        reveal_strlit("4");
        reveal_strlit("5");
        reveal_strlit("6");
        reveal_strlit("7");
        reveal_strlit("8");
        reveal_strlit("9");
        reveal_strlit("a");
        reveal_strlit("b");
        reveal_strlit("c");
        reveal_strlit("d");
        reveal_strlit("e");
        reveal_strlit("f");
    }
    assert(s@ =~= seq![digit_char(d as int)]);
    out.append(s);
    assert(out@ =~= before.push(digit_char(d as int)));
}

/// Appends `n` in decimal.
pub fn push_decimal(out: &mut String, n: u64)
    ensures
        final(out)@ == old(out)@ + decimal(n as nat),
    decreases n,
{
    let ghost before = out@;
    if n >= 10 {
        push_decimal(out, n / 10);
    }
    push_digit(out, (n % 10) as u8);
    assert(out@ =~= before + decimal(n as nat));
}

/// Appends `b` in hexadecimal, two digits.
pub fn push_hex2(out: &mut String, b: u8)
    ensures
        final(out)@ == old(out)@ + hex2(b),
{
    let ghost before = out@;
    push_digit(out, b / 16);
    push_digit(out, b % 16);
    assert(out@ =~= before + hex2(b));
}

/// Appends `n` in hexadecimal, four digits.
pub fn push_hex4(out: &mut String, n: u16)
    ensures
        final(out)@ == old(out)@ + hex4(n),
{
    let ghost before = out@;
    push_digit(out, (n / 4096) as u8);
    push_digit(out, (n / 256 % 16) as u8);
    push_digit(out, (n / 16 % 16) as u8);
    push_digit(out, (n % 16) as u8);
    assert(out@ =~= before + hex4(n));
}

/// The value of `c` as a digit, `None` where it is no digit up to `f`.
pub open spec fn digit_value(c: char) -> Option<nat> {
    if '0' <= c <= '9' {
        Some((c as int - '0' as int) as nat)
    } else if 'a' <= c <= 'f' {
        Some((c as int - 'a' as int + 10) as nat)
    } else if 'A' <= c <= 'F' {
        Some((c as int - 'A' as int + 10) as nat)
    } else {
        None
    }
}

/// `c` is a digit of a number to the base `radix`, which is 16 at most.
pub open spec fn is_digit(c: char, radix: nat) -> bool {
    digit_value(c) matches Some(d) && d < radix
}

/// `s` is one or more digits to the base `radix`.
pub open spec fn is_numeral(s: Seq<char>, radix: nat) -> bool {
    &&& s.len() > 0
    &&& forall|i: int| 0 <= i < s.len() ==> is_digit(#[trigger] s[i], radix)
}

/// The number that the digits `s` write to the base `radix`.
pub open spec fn value_of(s: Seq<char>, radix: nat) -> nat
    decreases s.len(),
{
    if s.len() == 0 {
        0
    } else {
        value_of(s.drop_last(), radix) * radix + digit_value(s.last()).unwrap_or(0)
    }
}

/// `s` without a leading plus sign.
pub open spec fn unsigned(s: Seq<char>) -> Seq<char> {
    if s.len() > 0 && s[0] == '+' {
        s.skip(1)
    } else {
        s
    }
}

/// The 16-bit number that `s` writes to the base `radix`: an optional plus sign,
/// then at least one digit and nothing else. `None` where `s` has another form
/// or the number is too large.
pub open spec fn number(s: Seq<char>, radix: nat) -> Option<u16> {
    let digits = unsigned(s);
    if is_numeral(digits, radix) && value_of(digits, radix) <= u16::MAX {
        Some(value_of(digits, radix) as u16)
    } else {
        None
    }
}

/// `s` says by a prefix that it is hexadecimal.
pub open spec fn hex_prefixed(s: Seq<char>) -> bool {
    s.len() >= 2 && s[0] == '0' && (s[1] == 'x' || s[1] == 'X')
}

/// `s` holds hexadecimal digits only, a letter among them.
pub open spec fn hex_looking(s: Seq<char>) -> bool {
    &&& forall|i: int| 0 <= i < s.len() ==> is_digit(#[trigger] s[i], 16)
    &&& exists|i: int| 0 <= i < s.len() && !is_digit(#[trigger] s[i], 10)
}

/// The number that `s` stands for: hexadecimal where a prefix or a letter says
/// so, decimal otherwise.
pub open spec fn flex_number(s: Seq<char>) -> Option<u16> {
    if hex_prefixed(s) {
        number(s.skip(2), 16)
    } else if hex_looking(s) {
        number(s, 16)
    } else {
        number(s, 10)
    }
}

/// The value of `c` as a digit.
fn digit(c: char) -> (r: Option<u32>)
    ensures
        r is Some <==> digit_value(c) is Some,
        r matches Some(d) ==> d == digit_value(c)->0 && d < 16,
{
    let v: u32 = c as u32;
    if '0' <= c && c <= '9' {
        Some(v - 48)
    } else if 'a' <= c && c <= 'f' {
        Some(v - 87)
    } else if 'A' <= c && c <= 'F' {
        Some(v - 55)
    } else {
        None
    }
}

/// More digits make no smaller number.
proof fn lemma_value_grows(s: Seq<char>, n: int, radix: nat)
    requires
        0 <= n <= s.len(),
        radix >= 1,
    ensures
        value_of(s.take(n), radix) <= value_of(s, radix),
    decreases s.len() - n,
{
    if n < s.len() {
        lemma_value_grows(s, n + 1, radix);
        let longer = s.take(n + 1);
        assert(longer.drop_last() =~= s.take(n));
        let v = value_of(s.take(n), radix);
        assert(v <= v * radix) by (nonlinear_arith)
            requires
                radix >= 1,
        ;
    } else {
        assert(s.take(n) =~= s);
    }
}

/// Reads `s` from position `from` on as a number to the base `radix`.
fn parse_number(s: &Vec<char>, from: usize, radix: u32) -> (r: Option<u16>)
    requires
        from <= s@.len(),
        radix == 10 || radix == 16,
    ensures
        r == number(s@.skip(from as int), radix as nat),
{
    let ghost text = s@.skip(from as int);
    let ghost digits = unsigned(text);
    let n: usize = s.len();
    let start: usize = if from < n && s[from] == '+' {
        from + 1
    } else {
        from
    };
    assert(digits =~= s@.skip(start as int));
    if start == n {
        return None;
    }
    let mut i: usize = start;
    let mut v: u32 = 0;
    assert(digits.take(0) =~= Seq::<char>::empty());
    while i < n
        invariant
            n == s@.len(),
            start <= i <= n,
            digits == s@.skip(start as int),
            digits == unsigned(text),
            text == s@.skip(from as int),
            radix == 10 || radix == 16,
            v <= u16::MAX,
            v == value_of(digits.take(i - start), radix as nat),
            forall|k: int| 0 <= k < i - start ==> is_digit(#[trigger] digits[k], radix as nat),
        decreases n - i,
    {
        let c: char = s[i];
        let ghost k: int = i - start;
        assert(c == digits[k]);
        match digit(c) {
            Some(d) if d < radix => {
                let ghost longer = digits.take(k + 1);
                assert(longer.drop_last() =~= digits.take(k));
                assert(longer.last() == c);
                v = v * radix + d;
                if v > 65535 {
                    proof {
                        lemma_value_grows(digits, k + 1, radix as nat);
                    }
                    return None;
                }
            },
            _ => {
                assert(!is_digit(digits[k], radix as nat));
                return None;
            },
        }
        i = i + 1;
    }
    assert(digits.take(n - start) =~= digits);
    Some(v as u16)
}

/// Reads a number that is written in decimal or in hexadecimal.
pub fn parse_u16_flex(value: &str) -> (r: Option<u16>)
    ensures
        r == flex_number(value@),
{
    let s: Vec<char> = chars_of(value);
    let n: usize = s.len();
    if n >= 2 && s[0] == '0' && (s[1] == 'x' || s[1] == 'X') {
        return parse_number(&s, 2, 16);
    }
    let mut all_hex: bool = true;
    let mut letter: bool = false;
    let mut i: usize = 0;
    while i < n
        invariant
            n == s@.len(),
            i <= n,
            all_hex <==> forall|k: int| 0 <= k < i ==> is_digit(#[trigger] s@[k], 16),
            all_hex ==> (letter <==> exists|k: int|
                0 <= k < i && !is_digit(#[trigger] s@[k], 10)),
        decreases n - i,
    {
        match digit(s[i]) {
            Some(d) => {
                if d >= 10 {
                    letter = true;
                }
            },
            None => {
                all_hex = false;
            },
        }
        i = i + 1;
    }
    assert(s@.skip(0) =~= s@);
    if all_hex && letter {
        parse_number(&s, 0, 16)
    } else {
        parse_number(&s, 0, 10)
    }
}

/// A decimal numeral reads as the number that it was made from.
proof fn lemma_decimal(n: nat)
    ensures
        is_numeral(decimal(n), 10),
        value_of(decimal(n), 10) == n,
    decreases n,
{
    if n < 10 {
        let one = seq![digit_char(n as int)];
        assert(one.drop_last() =~= Seq::<char>::empty());
        assert(value_of(one.drop_last(), 10) == 0);
    } else {
        lemma_decimal(n / 10);
        let high = decimal(n / 10);
        let c = digit_char((n % 10) as int);
        assert(high.push(c).drop_last() =~= high);
    }
}

/// Every 16-bit number can be given in decimal.
pub proof fn law_decimal_is_accepted(n: u16)
    ensures
        flex_number(decimal(n as nat)) == Some(n),
{
    lemma_decimal(n as nat);
    let s = decimal(n as nat);
    assert(is_digit(s[0], 10));
    if s.len() >= 2 {
        assert(is_digit(s[1], 10));
    }
}

/// Every 16-bit number can be given in hexadecimal behind `0x` or `0X`, as
/// the list of devices shows it.
pub proof fn law_hex_is_accepted(n: u16)
    ensures
        flex_number(seq!['0', 'x'] + hex4(n)) == Some(n),
        flex_number(seq!['0', 'X'] + hex4(n)) == Some(n),
{
    let h = hex4(n);
    let v: int = n as int;
    assert((seq!['0', 'x'] + h).skip(2) =~= h);
    assert((seq!['0', 'X'] + h).skip(2) =~= h);
    lemma_digit(v / 4096);
    lemma_digit(v / 256 % 16);
    lemma_digit(v / 16 % 16);
    lemma_digit(v % 16);
    assert(is_numeral(h, 16));
    assert(unsigned(h) == h);
    assert(value_of(h, 16) == n) by {
        lemma_value_hex(h);
        assert(((v / 4096 * 16 + v / 256 % 16) * 16 + v / 16 % 16) * 16 + v % 16 == v)
            by (nonlinear_arith)
            requires
                0 <= v <= 0xffff,
        ;
    }
}

proof fn lemma_digit(d: int)
    requires
        0 <= d < 16,
    ensures
        digit_value(digit_char(d)) == Some(d as nat),
        digit_char(d) != '+',
{
}

proof fn lemma_value_hex(h: Seq<char>)
    requires
        h.len() == 4,
        is_numeral(h, 16),
    ensures
        value_of(h, 16) == ((digit_value(h[0])->0 * 16 + digit_value(h[1])->0) * 16 + digit_value(
            h[2],
        )->0) * 16 + digit_value(h[3])->0,
{
    let none = Seq::<char>::empty();
    assert(forall|i: int| 0 <= i < 4 ==> is_digit(#[trigger] h[i], 16));
    lemma_value_push(none, h[0]);
    lemma_value_push(none.push(h[0]), h[1]);
    lemma_value_push(none.push(h[0]).push(h[1]), h[2]);
    lemma_value_push(none.push(h[0]).push(h[1]).push(h[2]), h[3]);
    assert(h =~= none.push(h[0]).push(h[1]).push(h[2]).push(h[3]));
}

proof fn lemma_value_push(s: Seq<char>, c: char)
    ensures
        value_of(s.push(c), 16) == value_of(s, 16) * 16 + digit_value(c).unwrap_or(0),
{
    assert(s.push(c).drop_last() =~= s);
}

/// The same hexadecimal digit, in lower case or in upper case.
pub open spec fn same_hex_digit(c: char, d: char) -> bool {
    c == d || digit_value(c) is Some && digit_value(c) == digit_value(d)
}

/// The case of hexadecimal letters does not matter.
pub proof fn law_hex_letter_case(s: Seq<char>, t: Seq<char>)
    requires
        s.len() == t.len(),
        forall|i: int| 0 <= i < s.len() ==> same_hex_digit(#[trigger] s[i], t[i]),
    ensures
        number(s, 16) == number(t, 16),
{
    let a = unsigned(s);
    let b = unsigned(t);
    assert(s.len() > 0 ==> same_hex_digit(s[0], t[0]));
    assert forall|i: int| 0 <= i < a.len() implies digit_value(#[trigger] a[i]) == digit_value(
        b[i],
    ) by {
        let k: int = i + s.len() - a.len();
        assert(same_hex_digit(s[k], t[k]));
    }
    lemma_same_value(a, b);
    if is_numeral(a, 16) {
        assert forall|i: int| 0 <= i < b.len() implies is_digit(#[trigger] b[i], 16) by {
            assert(is_digit(a[i], 16));
        }
    }
    if is_numeral(b, 16) {
        assert forall|i: int| 0 <= i < a.len() implies is_digit(#[trigger] a[i], 16) by {
            assert(is_digit(b[i], 16));
        }
    }
}

proof fn lemma_same_value(s: Seq<char>, t: Seq<char>)
    requires
        s.len() == t.len(),
        forall|i: int|
            0 <= i < s.len() ==> digit_value(#[trigger] s[i]) == digit_value(t[i]),
    ensures
        value_of(s, 16) == value_of(t, 16),
    decreases s.len(),
{
    if s.len() > 0 {
        lemma_same_value(s.drop_last(), t.drop_last());
        assert(digit_value(s[s.len() - 1]) == digit_value(t[s.len() - 1]));
    }
}

/// The digits are those that everybody uses.
pub proof fn law_digits(d: int)
    requires
        0 <= d < 16,
    ensures
        digit_char(d) == "0123456789abcdef"@[d],
{
    reveal_strlit("0123456789abcdef");
}

/// In decimal a number ends with its last digit, behind the digits of the rest.
pub proof fn law_decimal_digit_by_digit(high: nat, d: nat)
    requires
        d < 10,
    ensures
        decimal(d) == seq!["0123456789"@[d as int]],
        high > 0 ==> decimal(10 * high + d) == decimal(high).push("0123456789"@[d as int]),
{
    reveal_strlit("0123456789");
    if high > 0 {
        assert((10 * high + d) / 10 == high);
        assert((10 * high + d) % 10 == d);
    }
}

/// In hexadecimal each digit stands for four bits, the highest first.
pub proof fn law_hex_digit_by_digit(a: nat, b: nat, c: nat, d: nat)
    requires
        a < 16,
        b < 16,
        c < 16,
        d < 16,
    ensures
        hex2((16 * a + b) as u8) == seq![
            "0123456789abcdef"@[a as int],
            "0123456789abcdef"@[b as int],
        ],
        hex4((4096 * a + 256 * b + 16 * c + d) as u16) == seq![
            "0123456789abcdef"@[a as int],
            "0123456789abcdef"@[b as int],
            "0123456789abcdef"@[c as int],
            "0123456789abcdef"@[d as int],
        ],
{
    law_digits(a as int);
    law_digits(b as int);
    law_digits(c as int);
    law_digits(d as int);
    let n: int = 4096 * (a as int) + 256 * b + 16 * c + d;
    lemma_four_digits(a as int, b as int, c as int, d as int);
    assert((n as u16) as int == n);
    let m: int = 16 * (a as int) + b;
    assert((m as u8) as int == m);
}

proof fn lemma_four_digits(a: int, b: int, c: int, d: int)
    requires
        0 <= a < 16,
        0 <= b < 16,
        0 <= c < 16,
        0 <= d < 16,
    ensures
        ({
            let n = 4096 * a + 256 * b + 16 * c + d;
            &&& 0 <= n <= 0xffff
            &&& n / 4096 == a
            &&& n / 256 % 16 == b
            &&& n / 16 % 16 == c
            &&& n % 16 == d
        }),
{
    let n: int = 4096 * a + 256 * b + 16 * c + d;
    assert(n / 16 == 256 * a + 16 * b + c);
    assert(n / 256 == 16 * a + b);
    assert(n / 4096 == a);
}

proof fn lemma_push(s: Seq<char>, c: char, radix: nat)
    requires
        is_numeral(s, radix) || s.len() == 0,
        is_digit(c, radix),
    ensures
        is_numeral(s.push(c), radix),
        value_of(s.push(c), radix) == value_of(s, radix) * radix + digit_value(c)->0,
{
    assert(s.push(c).drop_last() =~= s);
    assert forall|i: int| 0 <= i < s.push(c).len() implies is_digit(
        #[trigger] s.push(c)[i],
        radix,
    ) by {
        if i < s.len() {
            assert(is_digit(s[i], radix));
        }
    }
}

/// Decimal digits read from left to right: each further digit makes ten times
/// the number and the digit, as long as that fits in 16 bits, and no number
/// after that. Leading zeros change nothing.
pub proof fn law_decimal_reads_digit_by_digit(s: Seq<char>, c: char)
    requires
        forall|i: int| 0 <= i < s.len() ==> '0' <= #[trigger] s[i] <= '9',
        '0' <= c <= '9',
    ensures
        flex_number(seq![c]) == Some((c as int - '0' as int) as u16),
        s.len() > 0 ==> flex_number(s.push(c)) == match flex_number(s) {
            Some(v) => if v * 10 + (c as int - '0' as int) <= 65535 {
                Some((v * 10 + (c as int - '0' as int)) as u16)
            } else {
                None
            },
            None => None,
        },
{
    let none = Seq::<char>::empty();
    lemma_push(none, c, 10);
    assert(none.push(c) =~= seq![c]);
    lemma_plain_decimal(seq![c]);
    if s.len() > 0 {
        assert forall|i: int| 0 <= i < s.len() implies is_digit(#[trigger] s[i], 10) by {}
        lemma_push(s, c, 10);
        lemma_plain_decimal(s);
        lemma_plain_decimal(s.push(c));
    }
}

/// A decimal numeral is read as it stands.
proof fn lemma_plain_decimal(s: Seq<char>)
    requires
        is_numeral(s, 10),
    ensures
        flex_number(s) == number(s, 10),
        unsigned(s) == s,
{
    assert(is_digit(s[0], 10));
    if s.len() >= 2 {
        assert(is_digit(s[1], 10));
    }
}

/// Hexadecimal digits behind `0x` or `0X` read from left to right, letters in
/// either case: each further digit makes sixteen times the number and the
/// digit, as long as that fits in 16 bits, and no number after that.
pub proof fn law_hex_reads_digit_by_digit(x: char, s: Seq<char>, c: char)
    requires
        x == 'x' || x == 'X',
        forall|i: int|
            0 <= i < s.len() ==> '0' <= #[trigger] s[i] <= '9' || 'a' <= s[i] <= 'f' || 'A' <= s[i]
                <= 'F',
        '0' <= c <= '9' || 'a' <= c <= 'f' || 'A' <= c <= 'F',
    ensures
        ({
            let d: int = if c <= '9' {
                c as int - '0' as int
            } else if c <= 'F' {
                c as int - 'A' as int + 10
            } else {
                c as int - 'a' as int + 10
            };
            &&& flex_number(seq!['0', x, c]) == Some(d as u16)
            &&& s.len() > 0 ==> flex_number(seq!['0', x] + s.push(c)) == match flex_number(
                seq!['0', x] + s,
            ) {
                Some(v) => if v * 16 + d <= 65535 {
                    Some((v * 16 + d) as u16)
                } else {
                    None
                },
                None => None,
            }
        }),
{
    let none = Seq::<char>::empty();
    assert(is_digit(c, 16));
    lemma_push(none, c, 16);
    assert(none.push(c) =~= seq![c]);
    assert(seq!['0', x, c].skip(2) =~= seq![c]);
    if s.len() > 0 {
        assert forall|i: int| 0 <= i < s.len() implies is_digit(#[trigger] s[i], 16) by {}
        lemma_push(s, c, 16);
        assert((seq!['0', x] + s.push(c)).skip(2) =~= s.push(c));
        assert((seq!['0', x] + s).skip(2) =~= s);
        assert(is_digit(s[0], 16));
        assert(unsigned(s) == s);
        assert(unsigned(s.push(c)) == s.push(c));
    }
}

/// Hexadecimal digits need no prefix where a letter stands among them, at
/// whatever place and in either case: they read as they do behind `0x`.
pub proof fn law_letter_makes_hex(s: Seq<char>, k: int)
    requires
        forall|i: int|
            0 <= i < s.len() ==> '0' <= #[trigger] s[i] <= '9' || 'a' <= s[i] <= 'f' || 'A' <= s[i]
                <= 'F',
        0 <= k < s.len(),
        'a' <= s[k] <= 'f' || 'A' <= s[k] <= 'F',
    ensures
        flex_number(s) == flex_number(seq!['0', 'x'] + s),
        flex_number(s) == flex_number(seq!['0', 'X'] + s),
{
    assert forall|i: int| 0 <= i < s.len() implies is_digit(#[trigger] s[i], 16) by {}
    assert(!is_digit(s[k], 10));
    assert(hex_looking(s));
    assert((seq!['0', 'x'] + s).skip(2) =~= s);
    assert((seq!['0', 'X'] + s).skip(2) =~= s);
    if s.len() >= 2 {
        assert(is_digit(s[1], 16));
    }
}

/// Every 16-bit number whose four hexadecimal digits hold a letter can be given
/// by these alone, the letters in either case.
pub proof fn law_bare_hex_is_accepted(n: u16, s: Seq<char>, k: int)
    requires
        s.len() == 4,
        forall|i: int|
            0 <= i < 4 ==> #[trigger] s[i] == hex4(n)[i] || 'A' <= s[i] <= 'F' && s[i] as int + 32
                == hex4(n)[i] as int,
        0 <= k < 4,
        'a' <= hex4(n)[k] <= 'f',
    ensures
        flex_number(s) == Some(n),
{
    let h = hex4(n);
    let v: int = n as int;
    lemma_digit(v / 4096);
    lemma_digit(v / 256 % 16);
    lemma_digit(v / 16 % 16);
    lemma_digit(v % 16);
    assert forall|i: int| 0 <= i < 4 implies same_hex_digit(#[trigger] s[i], h[i]) by {
        assert(s[i] == h[i] || 'A' <= s[i] <= 'F' && s[i] as int + 32 == h[i] as int);
        assert(digit_value(h[i]) is Some);
    }
    assert forall|i: int|
        0 <= i < s.len() implies '0' <= #[trigger] s[i] <= '9' || 'a' <= s[i] <= 'f' || 'A' <= s[i]
        <= 'F' by {
        assert(same_hex_digit(s[i], h[i]));
        assert(digit_value(h[i]) is Some);
    }
    law_letter_makes_hex(s, k);
    law_hex_letter_case(s, h);
    law_hex_is_accepted(n);
    assert((seq!['0', 'x'] + s).skip(2) =~= s);
    assert((seq!['0', 'x'] + h).skip(2) =~= h);
}

/// A plus sign before the digits, behind a prefix if there is one, changes
/// nothing.
pub proof fn law_plus_sign_changes_nothing(s: Seq<char>, x: char)
    requires
        x == 'x' || x == 'X',
        s.len() > 0,
    ensures
        (forall|i: int| 0 <= i < s.len() ==> '0' <= #[trigger] s[i] <= '9') ==> flex_number(
            seq!['+'] + s,
        ) == flex_number(s),
        s[0] != '+' ==> flex_number(seq!['0', x, '+'] + s) == flex_number(seq!['0', x] + s),
{
    if forall|i: int| 0 <= i < s.len() ==> '0' <= #[trigger] s[i] <= '9' {
        assert forall|i: int| 0 <= i < s.len() implies is_digit(#[trigger] s[i], 10) by {}
        lemma_plain_decimal(s);
        let t = seq!['+'] + s;
        assert(t.skip(1) =~= s);
        assert(t[0] == '+' && !is_digit(t[0], 16));
        assert(!hex_looking(t));
    }
    let t = seq!['0', x, '+'] + s;
    assert(t.skip(2) =~= seq!['+'] + s);
    assert((seq!['+'] + s).skip(1) =~= s);
    assert((seq!['0', x] + s).skip(2) =~= s);
}

/// Nothing else is a number: what is accepted is digits, decimal behind an
/// optional plus sign, hexadecimal as they stand, or hexadecimal behind a
/// prefix and an optional plus sign.
pub proof fn law_accepted_forms(s: Seq<char>)
    requires
        flex_number(s) is Some,
    ensures
        ({
            let dec = |t: Seq<char>|
                t.len() > 0 && forall|i: int| 0 <= i < t.len() ==> '0' <= #[trigger] t[i] <= '9';
            let hex = |t: Seq<char>|
                t.len() > 0 && forall|i: int|
                    0 <= i < t.len() ==> '0' <= #[trigger] t[i] <= '9' || 'a' <= t[i] <= 'f' || 'A'
                        <= t[i] <= 'F';
            ||| dec(s)
            ||| s.len() > 0 && s[0] == '+' && dec(s.skip(1))
            ||| hex(s)
            ||| s.len() > 2 && s[0] == '0' && (s[1] == 'x' || s[1] == 'X') && (hex(s.skip(2)) || (
            s[2] == '+' && hex(s.skip(3))))
        }),
{
    let radix: nat = if hex_prefixed(s) || hex_looking(s) {
        16
    } else {
        10
    };
    let text = if hex_prefixed(s) {
        s.skip(2)
    } else {
        s
    };
    let digits = unsigned(text);
    assert(is_numeral(digits, radix));
    assert(forall|i: int| 0 <= i < digits.len() ==> is_digit(#[trigger] digits[i], radix));
    if hex_prefixed(s) {
        assert(s.skip(2).skip(1) =~= s.skip(3));
    }
}

} // verus!
