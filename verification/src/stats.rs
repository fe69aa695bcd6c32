//! The line of statistics that is printed now and then.
use vstd::prelude::*;
use vstd::utf8::{
    decode_utf8, encode_utf8, encode_utf8_decode_utf8, encode_utf8_valid_utf8, valid_utf8,
};

use crate::numbers::{decimal, hex2, law_digits, push_decimal, push_hex2};
use crate::text::{chars_of, joined, utf8_text};

verus! {

/// How many bytes of a message are shown in hexadecimal at most.
pub const HEX_PREVIEW_BYTES: usize = 32;

/// `c` is a control character, of the C0 or the C1 set or DEL.
pub open spec fn is_control(c: char) -> bool {
    c as u32 <= 0x1f || 0x7f <= c as u32 <= 0x9f
}

/// `s` without the control characters at its end.
pub open spec fn trimmed(s: Seq<char>) -> Seq<char>
    decreases s.len(),
{
    if s.len() > 0 && is_control(s.last()) {
        trimmed(s.drop_last())
    } else {
        s
    }
}

/// The first bytes of `data` in hexadecimal, with an ellipsis where there are
/// more.
pub open spec fn hex_preview(data: Seq<u8>) -> Seq<char> {
    if data.len() > HEX_PREVIEW_BYTES {
        joined(data.take(HEX_PREVIEW_BYTES as int).map_values(|b: u8| hex2(b)), " "@) + " \u{2026}"@
    } else {
        joined(data.map_values(|b: u8| hex2(b)), " "@)
    }
}

/// How a message is shown: as text where it is UTF-8, in hexadecimal otherwise.
pub open spec fn preview_of(data: Seq<u8>) -> Seq<char> {
    if valid_utf8(data) {
        trimmed(decode_utf8(data))
    } else {
        hex_preview(data)
    }
}

/// How many messages were forwarded since the counter stood at `last_count`.
pub open spec fn growth(last_count: u64, total: u64) -> nat {
    (total - last_count) as nat
}

/// The line on `delta` messages out of `total`, with the last message where one
/// is to be shown.
pub open spec fn stats_line(
    delta: nat,
    interval_secs: nat,
    total: nat,
    last: Option<Seq<u8>>,
) -> Seq<char> {
    "Forwarded "@ + decimal(delta) + " messages in the last "@ + decimal(interval_secs)
        + "s (total: "@ + decimal(total) + ")"@ + match last {
        Some(data) => " | last: "@ + preview_of(data),
        None => seq![],
    }
}

/// Whether `c` is a control character.
fn control(c: char) -> (r: bool)
    ensures
        r == is_control(c),
{
    let v: u32 = c as u32;
    v <= 0x1f || (0x7f <= v && v <= 0x9f)
}

/// `s` without the control characters at its end.
fn trim(s: &str) -> (r: String)
    ensures
        r@ == trimmed(s@),
{
    let chars: Vec<char> = chars_of(s);
    let mut end: usize = chars.len();
    assert(s@.take(end as int) =~= s@);
    while end > 0 && control(chars[end - 1])
        invariant
            chars@ == s@,
            end <= s@.len(),
            trimmed(s@) == trimmed(s@.take(end as int)),
        decreases end,
    {
        assert(s@.take(end as int).drop_last() =~= s@.take(end - 1));
        end = end - 1;
    }
    assert(s@.subrange(0, end as int) =~= s@.take(end as int));
    s.substring_char(0, end).to_owned()
}

/// The first bytes of `data` in hexadecimal.
fn hex_text(data: &[u8]) -> (r: String)
    ensures
        r@ == hex_preview(data@),
{
    let shown: usize = if data.len() > HEX_PREVIEW_BYTES {
        HEX_PREVIEW_BYTES
    } else {
        data.len()
    };
    let mut out: String = String::new();
    let ghost pairs = data@.take(shown as int).map_values(|b: u8| hex2(b));
    let mut i: usize = 0;
    assert(pairs.take(0) =~= Seq::<Seq<char>>::empty());
    while i < shown
        invariant
            i <= shown <= data@.len(),
            pairs == data@.take(shown as int).map_values(|b: u8| hex2(b)),
            out@ == joined(pairs.take(i as int), " "@),
        decreases shown - i,
    {
        if i > 0 {
            out.append(" ");
        }
        push_hex2(&mut out, data[i]);
        proof {
            let longer = pairs.take(i + 1);
            assert(longer.drop_last() =~= pairs.take(i as int));
            assert(longer.last() == hex2(data@[i as int]));
            assert(out@ =~= joined(longer, " "@));
        }
        i = i + 1;
    }
    assert(pairs.take(shown as int) =~= pairs);
    if data.len() > HEX_PREVIEW_BYTES {
        out.append(" \u{2026}");
    } else {
        assert(data@.take(shown as int) =~= data@);
    }
    out
}

/// How a message is shown: as text where it is UTF-8, in hexadecimal otherwise.
pub fn preview(data: &[u8]) -> (r: String)
    ensures
        r@ == preview_of(data@),
{
    match utf8_text(data) {
        Some(s) => trim(s),
        None => hex_text(data),
    }
}

/// The state between two lines of statistics.
pub struct StatsPrinter {
    /// Seconds between two lines.
    pub interval_secs: u64,
    /// How many messages had been forwarded at the last line.
    pub last_count: u64,
}

impl StatsPrinter {
    /// Before the first line.
    pub fn new(interval_secs: u64) -> (r: StatsPrinter)
        ensures
            r.interval_secs == interval_secs,
            r.last_count == 0,
    {
        StatsPrinter { interval_secs, last_count: 0 }
    }

    /// The next line, where `total` messages have been forwarded by now.
    pub fn tick(&mut self, total: u64, last: Option<&Vec<u8>>) -> (r: String)
        requires
            old(self).last_count <= total,
        ensures
            r@ == stats_line(
                growth(old(self).last_count, total),
                old(self).interval_secs as nat,
                total as nat,
                match last {
                    Some(data) => Some(data@),
                    None => None,
                },
            ),
            final(self).last_count == total,
            final(self).interval_secs == old(self).interval_secs,
    {
        let delta: u64 = total - self.last_count;
        let mut msg: String = "Forwarded ".to_owned();
        push_decimal(&mut msg, delta);
        msg.append(" messages in the last ");
        push_decimal(&mut msg, self.interval_secs);
        msg.append("s (total: ");
        push_decimal(&mut msg, total);
        msg.append(")");
        let ghost base = msg@;
        if let Some(data) = last {
            msg.append(" | last: ");
            msg.append(preview(data.as_slice()).as_str());
            assert(msg@ =~= base + (" | last: "@ + preview_of(data@)));
        } else {
            assert(base + Seq::<char>::empty() =~= base);
        }
        self.last_count = total;
        msg
    }
}

/// What the lines report in sum, where the counter stood at `base` and then at
/// each of `totals` in turn.
pub open spec fn reported(base: u64, totals: Seq<u64>) -> nat
    decreases totals.len(),
{
    if totals.len() == 0 {
        0
    } else {
        growth(base, totals[0]) + reported(totals[0], totals.skip(1))
    }
}

/// Every forwarded message is reported in exactly one line: the lines add up to
/// what the counter has grown by.
pub proof fn law_reports_add_up(base: u64, totals: Seq<u64>)
    requires
        totals.len() > 0,
        base <= totals[0],
        forall|i: int, j: int| 0 <= i <= j < totals.len() ==> totals[i] <= totals[j],
    ensures
        reported(base, totals) == totals.last() - base,
    decreases totals.len(),
{
    if totals.len() > 1 {
        law_reports_add_up(totals[0], totals.skip(1));
    } else {
        assert(reported(totals[0], totals.skip(1)) == 0);
    }
}

/// Text is shown up to its last character that is no control character, and
/// nothing else is cut off.
pub proof fn law_text_preview(s: Seq<char>)
    ensures
        trimmed(s).len() <= s.len(),
        trimmed(s) == s.take(trimmed(s).len() as int),
        trimmed(s).len() > 0 ==> !is_control(trimmed(s).last()),
        forall|i: int| trimmed(s).len() <= i < s.len() ==> is_control(#[trigger] s[i]),
    decreases s.len(),
{
    if s.len() > 0 && is_control(s.last()) {
        law_text_preview(s.drop_last());
        assert forall|i: int| trimmed(s).len() <= i < s.len() implies is_control(
            #[trigger] s[i],
        ) by {
            if i < s.len() - 1 {
                assert(is_control(s.drop_last()[i]));
            }
        }
        assert(trimmed(s) =~= s.take(trimmed(s).len() as int));
    } else {
        assert(trimmed(s) =~= s.take(trimmed(s).len() as int));
    }
}

/// However long a message is, its hexadecimal preview is short.
pub proof fn law_hex_preview_is_short(data: Seq<u8>)
    ensures
        hex_preview(data).len() <= 3 * HEX_PREVIEW_BYTES + 1,
{
    reveal_strlit(" ");
    reveal_strlit(" \u{2026}");
    if data.len() > HEX_PREVIEW_BYTES {
        lemma_joined_pairs(data.take(HEX_PREVIEW_BYTES as int));
    } else {
        lemma_joined_pairs(data);
    }
}

proof fn lemma_joined_pairs(data: Seq<u8>)
    ensures
        joined(data.map_values(|b: u8| hex2(b)), " "@).len() == if data.len() == 0 {
            0
        } else {
            3 * data.len() - 1
        },
    decreases data.len(),
{
    reveal_strlit(" ");
    let pairs = data.map_values(|b: u8| hex2(b));
    if data.len() > 1 {
        lemma_joined_pairs(data.drop_last());
        assert(pairs.drop_last() =~= data.drop_last().map_values(|b: u8| hex2(b)));
    }
}

/// A last message is shown behind the same line that stands without it, whatever
/// the numbers are: also where nothing was forwarded.
pub proof fn law_last_message_is_appended(
    delta: nat,
    interval_secs: nat,
    total: nat,
    data: Seq<u8>,
)
    ensures
        stats_line(delta, interval_secs, total, Some(data)) == stats_line(
            delta,
            interval_secs,
            total,
            None,
        ) + " | last: "@ + preview_of(data),
{
    assert(stats_line(delta, interval_secs, total, Some(data)) =~= stats_line(
        delta,
        interval_secs,
        total,
        None,
    ) + " | last: "@ + preview_of(data));
}

/// The line gives the three numbers in their order, whatever they are.
pub proof fn law_line_gives_the_numbers(delta: nat, interval_secs: nat, total: nat)
    ensures
        stats_line(delta, interval_secs, total, None) == "Forwarded "@ + decimal(delta)
            + " messages in the last "@ + decimal(interval_secs) + "s (total: "@ + decimal(total)
            + ")"@,
{
    assert(stats_line(delta, interval_secs, total, None) =~= "Forwarded "@ + decimal(delta)
        + " messages in the last "@ + decimal(interval_secs) + "s (total: "@ + decimal(total)
        + ")"@);
}

/// A message that is text is shown as that text without the control characters
/// behind it, whatever stands before them.
pub proof fn law_text_is_shown(s: Seq<char>, controls: Seq<char>)
    requires
        s.len() > 0 ==> 0x1f < (s.last() as u32) < 0x7f || 0x9f < (s.last() as u32),
        forall|i: int|
            0 <= i < controls.len() ==> (#[trigger] controls[i]) as u32 <= 0x1f || 0x7f
                <= controls[i] as u32 <= 0x9f,
    ensures
        preview_of(encode_utf8(s + controls)) == s,
{
    encode_utf8_valid_utf8(s + controls);
    encode_utf8_decode_utf8(s + controls);
    lemma_trimmed(s, controls);
}

proof fn lemma_trimmed(s: Seq<char>, controls: Seq<char>)
    requires
        s.len() > 0 ==> !is_control(s.last()),
        forall|i: int| 0 <= i < controls.len() ==> is_control(#[trigger] controls[i]),
    ensures
        trimmed(s + controls) == s,
    decreases controls.len(),
{
    let all = s + controls;
    if controls.len() == 0 {
        assert(all =~= s);
    } else {
        assert(is_control(controls[controls.len() - 1]));
        assert(all.drop_last() =~= s + controls.drop_last());
        lemma_trimmed(s, controls.drop_last());
    }
}

/// A message that is no text is shown byte by byte: two hexadecimal digits for
/// each byte and a space between, and an ellipsis in place of what follows the
/// first 32 bytes.
pub proof fn law_bytes_are_shown_in_hex(data: Seq<u8>)
    requires
        !valid_utf8(data),
    ensures
        data.len() <= 32 ==> preview_of(data).len() == 3 * data.len() - 1,
        data.len() > 32 ==> {
            &&& preview_of(data).len() == 97
            &&& preview_of(data)[95] == ' '
            &&& preview_of(data)[96] == '\u{2026}'
        },
        forall|i: int|
            0 <= i < data.len() && i < 32 ==> {
                &&& preview_of(data)[3 * i] == "0123456789abcdef"@[(#[trigger] data[i]) as int / 16]
                &&& preview_of(data)[3 * i + 1] == "0123456789abcdef"@[data[i] as int % 16]
                &&& i > 0 ==> preview_of(data)[3 * i - 1] == ' '
            },
{
    reveal_strlit(" \u{2026}");
    reveal_strlit("0123456789abcdef");
    assert(data.len() > 0);
    let shown = if data.len() > 32 {
        data.take(32)
    } else {
        data
    };
    let p = joined(shown.map_values(|b: u8| hex2(b)), " "@);
    lemma_joined_pairs(shown);
    assert(forall|i: int| 0 <= i < p.len() ==> preview_of(data)[i] == p[i]);
    assert forall|i: int| 0 <= i < data.len() && i < 32 implies {
        &&& preview_of(data)[3 * i] == "0123456789abcdef"@[(#[trigger] data[i]) as int / 16]
        &&& preview_of(data)[3 * i + 1] == "0123456789abcdef"@[data[i] as int % 16]
        &&& i > 0 ==> preview_of(data)[3 * i - 1] == ' '
    } by {
        lemma_pair_at(shown, i);
        law_digits(data[i] as int / 16);
        law_digits(data[i] as int % 16);
    }
}

proof fn lemma_pair_at(data: Seq<u8>, i: int)
    requires
        0 <= i < data.len(),
    ensures
        ({
            let p = joined(data.map_values(|b: u8| hex2(b)), " "@);
            &&& p.len() == 3 * data.len() - 1
            &&& p[3 * i] == hex2(data[i])[0]
            &&& p[3 * i + 1] == hex2(data[i])[1]
            &&& i > 0 ==> p[3 * i - 1] == ' '
        }),
    decreases data.len(),
{
    reveal_strlit(" ");
    lemma_joined_pairs(data);
    let pairs = data.map_values(|b: u8| hex2(b));
    if data.len() > 1 {
        let fewer = data.drop_last();
        lemma_joined_pairs(fewer);
        assert(pairs.drop_last() =~= fewer.map_values(|b: u8| hex2(b)));
        if i < fewer.len() {
            lemma_pair_at(fewer, i);
        }
    }
}

} // verus!
