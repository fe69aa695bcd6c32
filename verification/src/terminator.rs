//! The delimiter as it is given on the command line.
use vstd::prelude::*;

use crate::text::chars_of;

verus! {

/// The byte that a character stands for: the low eight bits of its code point,
/// which for ASCII is the character itself.
pub open spec fn low_byte(c: char) -> u8 {
    (c as u32 % 256) as u8
}

/// The byte that `c` stands for behind a backslash. A character that means
/// nothing special there stands for itself.
pub open spec fn escaped_byte(c: char) -> u8 {
    if c == 'n' {
        10
    } else if c == 'r' {
        13
    } else if c == 't' {
        9
    } else if c == '0' {
        0
    } else {
        low_byte(c)
    }
}

/// The bytes that the text `s` stands for; a backslash at the end stands for
/// itself.
pub open spec fn terminator(s: Seq<char>) -> Seq<u8>
    decreases s.len(),
{
    if s.len() == 0 {
        seq![]
    } else if s[0] == '\\' && s.len() >= 2 {
        seq![escaped_byte(s[1])] + terminator(s.skip(2))
    } else {
        seq![low_byte(s[0])] + terminator(s.skip(1))
    }
}

/// The byte that `c` stands for behind a backslash.
fn unescape(c: char) -> (r: u8)
    ensures
        r == escaped_byte(c),
{
    match c {
        'n' => 10,
        'r' => 13,
        't' => 9,
        '0' => 0,
        _ => (c as u32 % 256) as u8,
    }
}

/// Decodes a terminator into bytes. Known escapes are `\n`, `\r`, `\t`, `\0`
/// and `\\`; behind a backslash any other character is taken literally.
pub fn decode_terminator(input: &str) -> (r: Vec<u8>)
    ensures
        r@ == terminator(input@),
{
    let s: Vec<char> = chars_of(input);
    let n: usize = s.len();
    let mut bytes: Vec<u8> = Vec::new();
    let mut i: usize = 0;
    assert(s@.skip(0) =~= s@);
    assert(bytes@ + terminator(s@) =~= terminator(s@));
    while i < n
        invariant
            n == s@.len(),
            i <= n,
            s@ == input@,
            terminator(input@) == bytes@ + terminator(s@.skip(i as int)),
        decreases n - i,
    {
        let ghost before = bytes@;
        let ghost rest = s@.skip(i as int);
        if s[i] == '\\' && n - i >= 2 {
            let b: u8 = unescape(s[i + 1]);
            bytes.push(b);
            assert(rest.skip(2) =~= s@.skip(i + 2));
            assert(before + (seq![b] + terminator(rest.skip(2))) =~= bytes@ + terminator(
                rest.skip(2),
            ));
            i = i + 2;
        } else {
            let b: u8 = (s[i] as u32 % 256) as u8;
            bytes.push(b);
            assert(rest.skip(1) =~= s@.skip(i + 1));
            assert(before + (seq![b] + terminator(rest.skip(1))) =~= bytes@ + terminator(
                rest.skip(1),
            ));
            i = i + 1;
        }
    }
    assert(bytes@ + terminator(s@.skip(n as int)) =~= bytes@);
    bytes
}

/// Text without a backslash stands for its own characters.
pub proof fn law_plain_text_is_literal(s: Seq<char>)
    requires
        forall|i: int| 0 <= i < s.len() ==> #[trigger] s[i] != '\\',
    ensures
        terminator(s) == s.map_values(|c: char| low_byte(c)),
    decreases s.len(),
{
    if s.len() > 0 {
        law_plain_text_is_literal(s.skip(1));
    }
    assert(terminator(s) =~= s.map_values(|c: char| low_byte(c)));
}

/// A text that stands for `bytes`: each byte as a character, a backslash as two.
pub open spec fn spelled(bytes: Seq<u8>) -> Seq<char>
    decreases bytes.len(),
{
    if bytes.len() == 0 {
        seq![]
    } else if bytes[0] == '\\' as u8 {
        seq!['\\', '\\'] + spelled(bytes.skip(1))
    } else {
        seq![bytes[0] as char] + spelled(bytes.skip(1))
    }
}

/// Every delimiter can be given on the command line: decoding its spelling
/// gives it back.
pub proof fn law_every_delimiter_can_be_spelled(bytes: Seq<u8>)
    ensures
        terminator(spelled(bytes)) == bytes,
    decreases bytes.len(),
{
    if bytes.len() > 0 {
        let rest = spelled(bytes.skip(1));
        law_every_delimiter_can_be_spelled(bytes.skip(1));
        let s = spelled(bytes);
        if bytes[0] == '\\' as u8 {
            assert(s.skip(2) =~= rest);
        } else {
            assert(s.skip(1) =~= rest);
        }
    }
    assert(terminator(spelled(bytes)) =~= bytes);
}

/// Text before the first backslash stands for its own characters, whatever
/// follows it.
pub proof fn law_plain_prefix_is_literal(a: Seq<char>, b: Seq<char>)
    requires
        forall|i: int| 0 <= i < a.len() ==> #[trigger] a[i] != '\\',
    ensures
        terminator(a + b) == Seq::new(a.len(), |i: int| (a[i] as u32 % 256) as u8) + terminator(b),
    decreases a.len(),
{
    let own = Seq::new(a.len(), |i: int| (a[i] as u32 % 256) as u8);
    if a.len() == 0 {
        assert(a + b =~= b);
        assert(own + terminator(b) =~= terminator(b));
    } else {
        let rest = a.skip(1);
        law_plain_prefix_is_literal(rest, b);
        assert((a + b).skip(1) =~= rest + b);
        assert(own + terminator(b) =~= seq![low_byte(a[0])] + (Seq::new(
            rest.len(),
            |i: int| (rest[i] as u32 % 256) as u8,
        ) + terminator(b)));
    }
}

/// A backslash and the character behind it stand for one byte, whatever follows
/// them: the known escapes for theirs, any other character for itself. A single
/// backslash stands for itself.
pub proof fn law_escapes(c: char, b: Seq<char>)
    ensures
        terminator(seq!['\\', 'n'] + b) == seq![10u8] + terminator(b),
        terminator(seq!['\\', 'r'] + b) == seq![13u8] + terminator(b),
        terminator(seq!['\\', 't'] + b) == seq![9u8] + terminator(b),
        terminator(seq!['\\', '0'] + b) == seq![0u8] + terminator(b),
        terminator(seq!['\\', '\\'] + b) == seq![0x5cu8] + terminator(b),
        c != 'n' && c != 'r' && c != 't' && c != '0' ==> terminator(seq!['\\', c] + b) == seq![
            (c as u32 % 256) as u8,
        ] + terminator(b),
        terminator(seq!['\\']) == seq![0x5cu8],
        terminator(seq![]) == Seq::<u8>::empty(),
{
    assert((seq!['\\', 'n'] + b).skip(2) =~= b);
    assert((seq!['\\', 'r'] + b).skip(2) =~= b);
    assert((seq!['\\', 't'] + b).skip(2) =~= b);
    assert((seq!['\\', '0'] + b).skip(2) =~= b);
    assert((seq!['\\', '\\'] + b).skip(2) =~= b);
    assert((seq!['\\', c] + b).skip(2) =~= b);
    let none = Seq::<char>::empty();
    assert(terminator(none) =~= Seq::<u8>::empty());
    assert(seq!['\\'].skip(1) =~= none);
    assert(terminator(seq!['\\']) =~= seq![0x5cu8]);
}

} // verus!
