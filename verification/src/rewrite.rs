//! The optional rewriting of JSON messages on their way in.
use vstd::prelude::*;
use vstd::utf8::{
    encode_utf8, encode_utf8_valid_utf8, is_ascii_chars, is_ascii_chars_encode_utf8,
    pop_first_scalar, valid_utf8, valid_utf8_concat,
};

use crate::subseq::{
    contains_bytes, law_found_only_where_it_stands, law_found_wherever_it_stands, occurs, occurs_at,
};
use crate::text::{ascii, ascii_bytes, utf8_text};

verus! {

/// A message that holds this text is not forwarded.
pub open spec fn drop_mark() -> Seq<u8> {
    ascii("fixType"@)
}

/// A JSON message that holds this text gets a type field.
pub open spec fn heading_mark() -> Seq<u8> {
    ascii("relPosHeading"@)
}

/// The type field, with the comma that separates it from the next one.
pub open spec fn type_field() -> Seq<u8> {
    ascii("\"messageType\":25,"@)
}

/// What becomes of a message that came in: `None` where it is dropped. Without
/// the rewriting, and where the message is not UTF-8, it goes out as it came.
pub open spec fn outgoing(msg: Seq<u8>, hack: bool) -> Option<Seq<u8>> {
    if !hack || !valid_utf8(msg) {
        Some(msg)
    } else if occurs(msg, drop_mark()) {
        None
    } else if msg.len() > 0 && msg[0] == '{' as u8 && occurs(msg, heading_mark()) {
        Some(msg.take(1) + type_field() + msg.skip(1))
    } else {
        Some(msg)
    }
}

/// Decides what becomes of `msg`: dropped where it mentions `fixType`, with a
/// `messageType` field right after its opening brace where it is a JSON object
/// that mentions `relPosHeading`, unchanged otherwise.
pub fn rewrite(msg: Vec<u8>, hack: bool) -> (r: Option<Vec<u8>>)
    ensures
        outgoing(msg@, hack) is None ==> r is None,
        outgoing(msg@, hack) matches Some(out) ==> r matches Some(v) && v@ == out,
{
    if !hack || utf8_text(msg.as_slice()).is_none() {
        return Some(msg);
    }
    proof {
        reveal_strlit("fixType");
        reveal_strlit("relPosHeading");
        reveal_strlit("\"messageType\":25,");
    }
    if contains_bytes(msg.as_slice(), ascii_bytes("fixType")) {
        return None;
    }
    if msg.len() > 0 && msg[0] == '{' as u8 && contains_bytes(
        msg.as_slice(),
        ascii_bytes("relPosHeading"),
    ) {
        let mut msg = msg;
        let mut tail: Vec<u8> = msg.split_off(1);
        msg.extend_from_slice(ascii_bytes("\"messageType\":25,"));
        msg.append(&mut tail);
        return Some(msg);
    }
    Some(msg)
}

/// With the rewriting on, no text that goes out mentions what is to be dropped;
/// the added field does not bring it in either.
pub proof fn law_dropped_text_never_goes_out(msg: Seq<u8>)
    requires
        valid_utf8(msg),
    ensures
        outgoing(msg, true) is None <==> occurs(msg, drop_mark()),
        outgoing(msg, true) matches Some(out) ==> !occurs(out, drop_mark()),
{
    if outgoing(msg, true) is Some {
        let out = outgoing(msg, true)->0;
        let mark = drop_mark();
        let field = type_field();
        reveal_strlit("fixType");
        reveal_strlit("\"messageType\":25,");
        assert forall|at: int| !#[trigger] occurs_at(out, mark, at) by {
            if occurs_at(out, mark, at) {
                assert(out.subrange(at, at + mark.len())[0] == out[at]);
                if out != msg {
                    let from: int = 1 + field.len() as int;
                    if at >= from {
                        let there: int = at - field.len();
                        assert(msg.subrange(there, there + mark.len()) =~= out.subrange(
                            at,
                            at + mark.len(),
                        ));
                        assert(occurs_at(msg, mark, there));
                    } else if at > 0 {
                        assert(out[at] == field[at - 1]);
                    }
                }
                assert(false);
            }
        }
    }
}

/// Text stays text: a message that is UTF-8 goes out as UTF-8.
pub proof fn law_rewriting_keeps_utf8(msg: Seq<u8>, hack: bool)
    requires
        valid_utf8(msg),
    ensures
        outgoing(msg, hack) matches Some(out) ==> valid_utf8(out),
{
    if let Some(out) = outgoing(msg, hack) {
        if out != msg {
            reveal_strlit("\"messageType\":25,");
            lemma_ascii_is_utf8("\"messageType\":25,"@);
            lemma_ascii_is_utf8(seq!['{']);
            assert(msg.take(1) =~= ascii(seq!['{']));
            assert(msg.skip(1) =~= pop_first_scalar(msg));
            valid_utf8_concat(msg.take(1), type_field());
            valid_utf8_concat(msg.take(1) + type_field(), msg.skip(1));
        }
    }
}

proof fn lemma_ascii_is_utf8(s: Seq<char>)
    requires
        is_ascii_chars(s),
    ensures
        valid_utf8(ascii(s)),
{
    is_ascii_chars_encode_utf8(s);
    encode_utf8_valid_utf8(s);
    assert(ascii(s) =~= encode_utf8(s));
}

/// The added field is all that changes: without it the message is what came in.
pub proof fn law_only_a_field_is_added(msg: Seq<u8>, hack: bool)
    ensures
        outgoing(msg, hack) matches Some(out) ==> out == msg || out.take(1) + out.skip(
            1 + type_field().len() as int,
        ) == msg,
{
    if let Some(out) = outgoing(msg, hack) {
        if out != msg {
            assert(out.take(1) + out.skip(1 + type_field().len() as int) =~= msg);
        }
    }
}

/// The texts that decide, and the field, as their UTF-8 bytes.
proof fn lemma_marks()
    ensures
        drop_mark() == encode_utf8("fixType"@),
        heading_mark() == encode_utf8("relPosHeading"@),
        type_field() == encode_utf8("\"messageType\":25,"@),
        heading_mark().len() == 13,
        heading_mark()[0] == 'r' as u8,
{
    reveal_strlit("fixType");
    reveal_strlit("relPosHeading");
    reveal_strlit("\"messageType\":25,");
    is_ascii_chars_encode_utf8("fixType"@);
    is_ascii_chars_encode_utf8("relPosHeading"@);
    is_ascii_chars_encode_utf8("\"messageType\":25,"@);
    assert(drop_mark() =~= encode_utf8("fixType"@));
    assert(heading_mark() =~= encode_utf8("relPosHeading"@));
    assert(type_field() =~= encode_utf8("\"messageType\":25,"@));
}

/// Without the rewriting every message goes out as it came, and with it every
/// one that is not text.
pub proof fn law_only_text_is_rewritten(msg: Seq<u8>)
    ensures
        outgoing(msg, false) == Some(msg),
        !valid_utf8(msg) ==> outgoing(msg, true) == Some(msg),
{
}

/// With the rewriting on, `fixType` anywhere in a text drops it.
pub proof fn law_fix_type_anywhere_drops(a: Seq<u8>, b: Seq<u8>)
    requires
        valid_utf8(a + encode_utf8("fixType"@) + b),
    ensures
        outgoing(a + encode_utf8("fixType"@) + b, true) is None,
{
    lemma_marks();
    law_found_wherever_it_stands(a, drop_mark(), b);
}

/// Nothing else drops a message.
pub proof fn law_only_fix_type_drops(msg: Seq<u8>, hack: bool)
    requires
        outgoing(msg, hack) is None,
    ensures
        hack,
        valid_utf8(msg),
        exists|a: Seq<u8>, b: Seq<u8>| msg == #[trigger] (a + encode_utf8("fixType"@) + b),
{
    lemma_marks();
    law_found_only_where_it_stands(msg, drop_mark());
}

/// With the rewriting on, a text that begins with a brace and mentions
/// `relPosHeading`, wherever behind it, goes out with the type field between
/// the brace and the rest, which stays as it is.
pub proof fn law_heading_anywhere_gets_the_field(a: Seq<u8>, b: Seq<u8>)
    requires
        valid_utf8(seq!['{' as u8] + a + encode_utf8("relPosHeading"@) + b),
        forall|x: Seq<u8>, y: Seq<u8>|
            seq!['{' as u8] + a + encode_utf8("relPosHeading"@) + b != #[trigger] (x + encode_utf8(
                "fixType"@,
            ) + y),
    ensures
        outgoing(seq!['{' as u8] + a + encode_utf8("relPosHeading"@) + b, true) == Some(
            seq!['{' as u8] + encode_utf8("\"messageType\":25,"@) + a + encode_utf8(
                "relPosHeading"@,
            ) + b,
        ),
{
    lemma_marks();
    let msg = seq!['{' as u8] + a + heading_mark() + b;
    if occurs(msg, drop_mark()) {
        law_found_only_where_it_stands(msg, drop_mark());
    }
    law_found_wherever_it_stands(seq!['{' as u8] + a, heading_mark(), b);
    assert(msg.take(1) + type_field() + msg.skip(1) =~= seq!['{' as u8] + type_field() + a
        + heading_mark() + b);
}

/// With the rewriting on, a text without `fixType` goes out as it came where it
/// does not begin with a brace or does not mention `relPosHeading`.
pub proof fn law_other_texts_are_unchanged(msg: Seq<u8>)
    requires
        valid_utf8(msg),
        forall|x: Seq<u8>, y: Seq<u8>| msg != #[trigger] (x + encode_utf8("fixType"@) + y),
        msg.len() == 0 || msg[0] != '{' as u8 || forall|x: Seq<u8>, y: Seq<u8>|
            msg != #[trigger] (x + encode_utf8("relPosHeading"@) + y),
    ensures
        outgoing(msg, true) == Some(msg),
{
    lemma_marks();
    if occurs(msg, drop_mark()) {
        law_found_only_where_it_stands(msg, drop_mark());
    }
    if occurs(msg, heading_mark()) {
        law_found_only_where_it_stands(msg, heading_mark());
    }
}

} // verus!
