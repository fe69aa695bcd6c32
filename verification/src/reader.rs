//! What is done with each message that was read.
use vstd::prelude::*;

use crate::framing::{
    forwarded, frames, law_log_reconstructs_stream, leftover, lemma_forwarded_push, raws, rejoined,
    Framer, Received,
};
use crate::rewrite::outgoing;

verus! {

/// What is done with one message; `None` where nothing is done of that kind.
pub struct Handling {
    /// What the statistics show from now on as the last message.
    pub shown: Option<Vec<u8>>,
    /// What is appended to the log.
    pub logged: Option<Vec<u8>>,
    /// What is put into the ring; the sender is notified then.
    pub queued: Option<Vec<u8>>,
}

/// The bytes in `v`.
pub open spec fn bytes(v: Option<Vec<u8>>) -> Option<Seq<u8>> {
    match v {
        Some(b) => Some(b@),
        None => None,
    }
}

/// `h` is how the message `msg` is handled: where it is shown and logged, it is
/// as it came, in the log with its delimiter; what is queued is what goes out
/// for it.
pub open spec fn handled(
    h: Handling,
    msg: Seq<u8>,
    delim: Seq<u8>,
    hack: bool,
    show_last: bool,
    log: bool,
) -> bool {
    &&& bytes(h.shown) == if show_last {
        Some(msg)
    } else {
        None
    }
    &&& bytes(h.logged) == if log {
        Some(msg + delim)
    } else {
        None
    }
    &&& bytes(h.queued) == outgoing(msg, hack)
}

/// `hs` are how the messages `msgs` are handled, one by one.
pub open spec fn all_handled(
    hs: Seq<Handling>,
    msgs: Seq<Seq<u8>>,
    delim: Seq<u8>,
    hack: bool,
    show_last: bool,
    log: bool,
) -> bool {
    &&& hs.len() == msgs.len()
    &&& forall|i: int|
        0 <= i < hs.len() ==> handled(#[trigger] hs[i], msgs[i], delim, hack, show_last, log)
}

/// Decides what is done with a message. It is shown and logged as it came, also
/// where it is dropped; what goes out for it is queued.
pub fn handling(received: Received, delimiter: &[u8], show_last: bool, log: bool) -> (h: Handling)
    ensures
        bytes(h.shown) == if show_last {
            Some(received.raw@)
        } else {
            None
        },
        bytes(h.logged) == if log {
            Some(received.raw@ + delimiter@)
        } else {
            None
        },
        h.queued == received.out,
{
    let logged: Option<Vec<u8>> = if log {
        let mut record: Vec<u8> = received.raw.clone();
        record.extend_from_slice(delimiter);
        assert(record@ =~= received.raw@ + delimiter@);
        Some(record)
    } else {
        None
    };
    let shown: Option<Vec<u8>> = if show_last {
        Some(received.raw)
    } else {
        None
    };
    Handling { shown, logged, queued: received.out }
}

/// Takes a chunk of the stream and decides what is done with each message that
/// it completes.
pub fn handle_chunk(framer: &mut Framer, chunk: &[u8], show_last: bool, log: bool) -> (r: Vec<
    Handling,
>)
    requires
        old(framer).wf(),
    ensures
        final(framer).wf(),
        final(framer).delim() == old(framer).delim(),
        final(framer).hacked() == old(framer).hacked(),
        final(framer).pending() == leftover(
            old(framer).delim(),
            old(framer).pending() + chunk@,
        ),
        all_handled(
            r@,
            frames(old(framer).delim(), old(framer).pending() + chunk@),
            old(framer).delim(),
            old(framer).hacked(),
            show_last,
            log,
        ),
{
    let got: Vec<Received> = framer.receive_chunk(chunk);
    let ghost delim = framer.delim();
    let ghost hack = framer.hacked();
    let ghost msgs = raws(got@);
    let mut out: Vec<Handling> = Vec::new();
    for c in it: got
        invariant
            it.seq() == got@,
            msgs == raws(got@),
            framer.delim() == delim,
            forall|k: int| 0 <= k < got@.len() ==> (#[trigger] got@[k]).wf(hack),
            all_handled(out@, msgs.take(it.index()), delim, hack, show_last, log),
    {
        assert(c == got@[it.index()] && c.wf(hack));
        out.push(handling(c, framer.delimiter(), show_last, log));
    }
    assert(msgs.take(msgs.len() as int) =~= msgs);
    out
}

/// What the statistics show as the last message after `hs`, where they showed
/// `before`.
pub open spec fn shown_after(before: Option<Seq<u8>>, hs: Seq<Handling>) -> Option<Seq<u8>>
    decreases hs.len(),
{
    if hs.len() == 0 {
        before
    } else {
        match bytes(hs.last().shown) {
            Some(msg) => Some(msg),
            None => shown_after(before, hs.drop_last()),
        }
    }
}

/// What `hs` append to the log.
pub open spec fn log_of(hs: Seq<Handling>) -> Seq<u8>
    decreases hs.len(),
{
    if hs.len() == 0 {
        seq![]
    } else {
        bytes(hs[0].logged).unwrap_or(seq![]) + log_of(hs.skip(1))
    }
}

/// What `hs` put into the ring, in that order.
pub open spec fn queued_by(hs: Seq<Handling>) -> Seq<Seq<u8>> {
    hs.filter_map(|h: Handling| bytes(h.queued))
}

/// The statistics show the most recent complete message as it was read, also
/// one that is not forwarded; where no message was completed, what they showed
/// stays.
pub proof fn law_most_recent_message_is_shown(
    before: Option<Seq<u8>>,
    hs: Seq<Handling>,
    msgs: Seq<Seq<u8>>,
    delim: Seq<u8>,
    hack: bool,
    log: bool,
)
    requires
        all_handled(hs, msgs, delim, hack, true, log),
    ensures
        shown_after(before, hs) == if msgs.len() == 0 {
            before
        } else {
            Some(msgs.last())
        },
{
    if msgs.len() > 0 {
        assert(handled(hs[hs.len() - 1], msgs[hs.len() - 1], delim, hack, true, log));
    }
}

/// Every complete message is logged as it came, with its delimiter, whatever is
/// forwarded: the log and what is still pending are the stream.
pub proof fn law_log_is_the_stream(
    hs: Seq<Handling>,
    s: Seq<u8>,
    delim: Seq<u8>,
    hack: bool,
    show_last: bool,
)
    requires
        all_handled(hs, frames(delim, s), delim, hack, show_last, true),
    ensures
        log_of(hs) + leftover(delim, s) == s,
{
    lemma_log_of(hs, frames(delim, s), delim, hack, show_last);
    law_log_reconstructs_stream(delim, s);
}

proof fn lemma_log_of(
    hs: Seq<Handling>,
    msgs: Seq<Seq<u8>>,
    delim: Seq<u8>,
    hack: bool,
    show_last: bool,
)
    requires
        all_handled(hs, msgs, delim, hack, show_last, true),
    ensures
        log_of(hs) == rejoined(delim, msgs),
    decreases hs.len(),
{
    if hs.len() > 0 {
        assert(handled(hs[0], msgs[0], delim, hack, show_last, true));
        assert forall|i: int| 0 <= i < hs.skip(1).len() implies handled(
            #[trigger] hs.skip(1)[i],
            msgs.skip(1)[i],
            delim,
            hack,
            show_last,
            true,
        ) by {
            assert(handled(hs[i + 1], msgs[i + 1], delim, hack, show_last, true));
        }
        lemma_log_of(hs.skip(1), msgs.skip(1), delim, hack, show_last);
    }
}

/// Showing and logging do not touch what is forwarded: the ring gets what goes
/// out for the messages, in their order.
pub proof fn law_queue_gets_what_goes_out(
    hs: Seq<Handling>,
    msgs: Seq<Seq<u8>>,
    delim: Seq<u8>,
    hack: bool,
    show_last: bool,
    log: bool,
)
    requires
        all_handled(hs, msgs, delim, hack, show_last, log),
    ensures
        queued_by(hs) == forwarded(msgs, hack),
    decreases hs.len(),
{
    if hs.len() == 0 {
        assert(queued_by(hs) =~= forwarded(msgs, hack));
    } else {
        let fewer = hs.drop_last();
        let before = msgs.drop_last();
        assert forall|i: int| 0 <= i < fewer.len() implies handled(
            #[trigger] fewer[i],
            before[i],
            delim,
            hack,
            show_last,
            log,
        ) by {
            assert(handled(hs[i], msgs[i], delim, hack, show_last, log));
        }
        law_queue_gets_what_goes_out(fewer, before, delim, hack, show_last, log);
        assert(handled(hs[hs.len() - 1], msgs[hs.len() - 1], delim, hack, show_last, log));
        lemma_forwarded_push(before, msgs.last(), hack);
        assert(before.push(msgs.last()) =~= msgs);
        assert(queued_by(hs) =~= forwarded(msgs, hack));
    }
}

/// Nothing is shown where it was not asked for, and nothing is logged.
pub proof fn law_only_what_was_asked_for(
    hs: Seq<Handling>,
    msgs: Seq<Seq<u8>>,
    delim: Seq<u8>,
    hack: bool,
    show_last: bool,
    log: bool,
)
    requires
        all_handled(hs, msgs, delim, hack, show_last, log),
    ensures
        !show_last ==> forall|i: int| 0 <= i < hs.len() ==> (#[trigger] hs[i]).shown is None,
        !log ==> forall|i: int| 0 <= i < hs.len() ==> (#[trigger] hs[i]).logged is None,
{
    assert(forall|i: int|
        0 <= i < hs.len() ==> handled(#[trigger] hs[i], msgs[i], delim, hack, show_last, log));
}

} // verus!
