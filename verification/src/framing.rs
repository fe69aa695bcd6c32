//! Cutting a byte stream into messages at a delimiter.
use vstd::prelude::*;

use crate::rewrite::{outgoing, rewrite};
use crate::subseq::{bytes_at, occurs, occurs_at};

verus! {

/// The first `n` bytes of `s` are not empty and end with `delim`.
pub open spec fn complete(delim: Seq<u8>, s: Seq<u8>, n: int) -> bool {
    &&& 1 <= n <= s.len()
    &&& delim.is_suffix_of(s.take(n))
}

/// The least `n` not below `from` at which `s` is complete, or `s.len() + 1`
/// where there is none.
pub open spec fn first_end(delim: Seq<u8>, s: Seq<u8>, from: int) -> int
    decreases s.len() + 1 - from,
{
    if from > s.len() {
        s.len() as int + 1
    } else if complete(delim, s, from) {
        from
    } else {
        first_end(delim, s, from + 1)
    }
}

/// No message has been completed in `s`.
pub open spec fn unfinished(delim: Seq<u8>, s: Seq<u8>) -> bool {
    forall|n: int| !#[trigger] complete(delim, s, n)
}

/// The messages of the stream `s`, without their delimiters: each reaches up to
/// the earliest place where the bytes since the last cut end with `delim`.
pub open spec fn frames(delim: Seq<u8>, s: Seq<u8>) -> Seq<Seq<u8>>
    decreases s.len(),
{
    let n: int = first_end(delim, s, 1);
    if 1 <= n <= s.len() {
        seq![s.take(n - delim.len())] + frames(delim, s.skip(n))
    } else {
        seq![]
    }
}

/// What stands in the stream `s` behind its last complete message.
pub open spec fn leftover(delim: Seq<u8>, s: Seq<u8>) -> Seq<u8>
    decreases s.len(),
{
    let n: int = first_end(delim, s, 1);
    if 1 <= n <= s.len() {
        leftover(delim, s.skip(n))
    } else {
        s
    }
}

/// What goes out for the messages `msgs`, in their order: each is rewritten or
/// dropped on its own.
pub open spec fn forwarded(msgs: Seq<Seq<u8>>, hack: bool) -> Seq<Seq<u8>> {
    msgs.filter_map(|m: Seq<u8>| outgoing(m, hack))
}

/// The contents of each of `vs`.
pub open spec fn contents(vs: Seq<Vec<u8>>) -> Seq<Seq<u8>> {
    vs.map_values(|v: Vec<u8>| v@)
}

/// A complete message.
pub struct Received {
    /// The message as it came, without its delimiter.
    pub raw: Vec<u8>,
    /// What goes out for it; nothing where it is dropped.
    pub out: Option<Vec<u8>>,
}

impl Received {
    /// What goes out is what becomes of the message that came in.
    pub open spec fn wf(self, hack: bool) -> bool {
        match outgoing(self.raw@, hack) {
            Some(out) => self.out matches Some(v) && v@ == out,
            None => self.out is None,
        }
    }
}

/// The messages as they came.
pub open spec fn raws(rs: Seq<Received>) -> Seq<Seq<u8>> {
    rs.map_values(|r: Received| r.raw@)
}

/// The reading side: takes bytes as they come and gives back complete messages.
pub struct Framer {
    delimiter: Vec<u8>,
    hack: bool,
    buffer: Vec<u8>,
}

impl Framer {
    /// The bytes that end a message.
    pub closed spec fn delim(self) -> Seq<u8> {
        self.delimiter@
    }

    /// Whether messages are rewritten.
    pub closed spec fn hacked(self) -> bool {
        self.hack
    }

    /// The bytes that came since the last complete message.
    pub closed spec fn pending(self) -> Seq<u8> {
        self.buffer@
    }

    /// Between calls no complete message is pending.
    pub open spec fn wf(self) -> bool {
        unfinished(self.delim(), self.pending())
    }

    /// Starts at the beginning of a stream.
    pub fn new(delimiter: Vec<u8>, hack: bool) -> (r: Framer)
        ensures
            r.wf(),
            r.delim() == delimiter@,
            r.hacked() == hack,
            r.pending() == Seq::<u8>::empty(),
    {
        Framer { delimiter, hack, buffer: Vec::new() }
    }

    /// The bytes that end a message.
    pub fn delimiter(&self) -> (r: &[u8])
        ensures
            r@ == self.delim(),
    {
        self.delimiter.as_slice()
    }

    /// Takes one byte. Where it completes a message, that message comes back
    /// with what goes out for it, and nothing is pending any more.
    pub fn receive(&mut self, byte: u8) -> (r: Option<Received>)
        requires
            old(self).wf(),
        ensures
            final(self).wf(),
            final(self).delim() == old(self).delim(),
            final(self).hacked() == old(self).hacked(),
            ({
                let whole = old(self).pending().push(byte);
                let delim = old(self).delim();
                if delim.is_suffix_of(whole) {
                    &&& final(self).pending() == Seq::<u8>::empty()
                    &&& r matches Some(c)
                    &&& c.raw@ == whole.take(whole.len() - delim.len())
                    &&& c.wf(old(self).hacked())
                } else {
                    final(self).pending() == whole && r is None
                }
            }),
    {
        self.buffer.push(byte);
        let n: usize = self.delimiter.len();
        let total: usize = self.buffer.len();
        if n <= total && bytes_at(
            self.buffer.as_slice(),
            self.delimiter.as_slice(),
            total - n,
        ) {
            let mut raw: Vec<u8> = Vec::new();
            raw.append(&mut self.buffer);
            raw.truncate(total - n);
            let out = rewrite(raw.clone(), self.hack);
            Some(Received { raw, out })
        } else {
            proof {
                lemma_still_unfinished(old(self).delim(), old(self).pending(), byte);
            }
            None
        }
    }

    /// Takes one byte. Where it completes a message, what goes out for that
    /// message comes back, and nothing is pending any more.
    pub fn push_byte(&mut self, byte: u8) -> (r: Option<Vec<u8>>)
        requires
            old(self).wf(),
        ensures
            final(self).wf(),
            final(self).delim() == old(self).delim(),
            final(self).hacked() == old(self).hacked(),
            ({
                let whole = old(self).pending().push(byte);
                let delim = old(self).delim();
                if delim.is_suffix_of(whole) {
                    let msg = whole.take(whole.len() - delim.len());
                    &&& final(self).pending() == Seq::<u8>::empty()
                    &&& match outgoing(msg, old(self).hacked()) {
                        Some(out) => r matches Some(v) && v@ == out,
                        None => r is None,
                    }
                } else {
                    final(self).pending() == whole && r is None
                }
            }),
    {
        match self.receive(byte) {
            Some(c) => c.out,
            None => None,
        }
    }

    /// Takes a chunk of the stream and gives back the messages that it
    /// completes, each with what goes out for it.
    pub fn receive_chunk(&mut self, chunk: &[u8]) -> (r: Vec<Received>)
        requires
            old(self).wf(),
        ensures
            final(self).wf(),
            final(self).delim() == old(self).delim(),
            final(self).hacked() == old(self).hacked(),
            raws(r@) == frames(old(self).delim(), old(self).pending() + chunk@),
            forall|i: int| 0 <= i < r@.len() ==> (#[trigger] r@[i]).wf(old(self).hacked()),
            final(self).pending() == leftover(old(self).delim(), old(self).pending() + chunk@),
    {
        let ghost delim = self.delim();
        let ghost hack = self.hacked();
        let ghost stream = self.pending() + chunk@;
        let mut got: Vec<Received> = Vec::new();
        let n: usize = chunk.len();
        let mut i: usize = 0;
        assert(chunk@.skip(0) =~= chunk@);
        assert(raws(got@) + frames(delim, stream) =~= frames(delim, stream));
        while i < n
            invariant
                n == chunk@.len(),
                i <= n,
                self.wf(),
                self.delim() == delim,
                self.hacked() == hack,
                frames(delim, stream) == raws(got@) + frames(
                    delim,
                    self.pending() + chunk@.skip(i as int),
                ),
                leftover(delim, stream) == leftover(delim, self.pending() + chunk@.skip(i as int)),
                forall|k: int| 0 <= k < got@.len() ==> (#[trigger] got@[k]).wf(hack),
            decreases n - i,
        {
            let ghost before = self.pending();
            let ghost so_far = got@;
            let byte: u8 = chunk[i];
            let ghost whole = before.push(byte);
            let ghost rest = chunk@.skip(i + 1);
            assert(before + chunk@.skip(i as int) =~= whole + rest);
            if let Some(c) = self.receive(byte) {
                got.push(c);
                proof {
                    lemma_cut(delim, before, byte, rest);
                    assert(Seq::<u8>::empty() + rest =~= rest);
                    assert(raws(got@) =~= raws(so_far).push(c.raw@));
                    assert(raws(so_far) + (seq![c.raw@] + frames(delim, rest)) =~= raws(got@)
                        + frames(delim, rest));
                }
            }
            i = i + 1;
        }
        assert(chunk@.skip(n as int) =~= Seq::<u8>::empty());
        assert(self.pending() + Seq::<u8>::empty() =~= self.pending());
        proof {
            lemma_unfinished(delim, self.pending());
            assert(raws(got@) + Seq::<Seq<u8>>::empty() =~= raws(got@));
        }
        got
    }

    /// Takes a chunk of the stream and gives back what goes out for the
    /// messages that it completes.
    pub fn feed(&mut self, chunk: &[u8]) -> (r: Vec<Vec<u8>>)
        requires
            old(self).wf(),
        ensures
            final(self).wf(),
            final(self).delim() == old(self).delim(),
            final(self).hacked() == old(self).hacked(),
            contents(r@) == forwarded(
                frames(old(self).delim(), old(self).pending() + chunk@),
                old(self).hacked(),
            ),
            final(self).pending() == leftover(old(self).delim(), old(self).pending() + chunk@),
    {
        let ghost hack = self.hacked();
        let got: Vec<Received> = self.receive_chunk(chunk);
        let ghost msgs = raws(got@);
        let mut out: Vec<Vec<u8>> = Vec::new();
        assert(contents(out@) =~= forwarded(msgs.take(0), hack));
        for c in it: got
            invariant
                it.seq() == got@,
                msgs == raws(got@),
                forall|k: int| 0 <= k < got@.len() ==> (#[trigger] got@[k]).wf(hack),
                contents(out@) == forwarded(msgs.take(it.index()), hack),
        {
            let ghost k = it.index();
            let ghost so_far = out@;
            proof {
                assert(c == got@[k] && c.wf(hack));
                assert(msgs.take(k + 1) =~= msgs.take(k).push(c.raw@));
                lemma_forwarded_push(msgs.take(k), c.raw@, hack);
            }
            if let Some(msg) = c.out {
                out.push(msg);
                assert(contents(out@) =~= contents(so_far).push(msg@));
            }
        }
        assert(msgs.take(msgs.len() as int) =~= msgs);
        out
    }
}

/// One more message adds at most one to what goes out.
pub proof fn lemma_forwarded_push(msgs: Seq<Seq<u8>>, msg: Seq<u8>, hack: bool)
    ensures
        forwarded(msgs.push(msg), hack) == match outgoing(msg, hack) {
            Some(out) => forwarded(msgs, hack).push(out),
            None => forwarded(msgs, hack),
        },
{
    reveal_with_fuel(Seq::filter_map, 1);
    assert(msgs.push(msg).drop_last() =~= msgs);
}

/// `first_end` is what its description says.
proof fn lemma_first_end(delim: Seq<u8>, s: Seq<u8>, from: int)
    requires
        1 <= from <= s.len() + 1,
    ensures
        from <= first_end(delim, s, from) <= s.len() + 1,
        forall|m: int|
            from <= m < first_end(delim, s, from) ==> !#[trigger] complete(delim, s, m),
        first_end(delim, s, from) <= s.len() ==> complete(
            delim,
            s,
            first_end(delim, s, from),
        ),
    decreases s.len() + 1 - from,
{
    if from <= s.len() && !complete(delim, s, from) {
        lemma_first_end(delim, s, from + 1);
    }
}

/// The earliest cut, found by showing that there is none before it.
proof fn lemma_first_end_is(delim: Seq<u8>, s: Seq<u8>, n: int)
    requires
        complete(delim, s, n),
        forall|m: int| 1 <= m < n ==> !#[trigger] complete(delim, s, m),
    ensures
        first_end(delim, s, 1) == n,
{
    lemma_first_end(delim, s, 1);
}

/// A stream without a complete message is all leftover.
proof fn lemma_unfinished(delim: Seq<u8>, s: Seq<u8>)
    requires
        unfinished(delim, s),
    ensures
        frames(delim, s) == Seq::<Seq<u8>>::empty(),
        leftover(delim, s) == s,
{
    lemma_first_end(delim, s, 1);
}

/// Bytes behind a prefix do not change where the prefix is complete.
proof fn lemma_complete_in_prefix(delim: Seq<u8>, a: Seq<u8>, b: Seq<u8>, n: int)
    requires
        n <= a.len(),
    ensures
        complete(delim, a + b, n) == complete(delim, a, n),
{
    if 1 <= n {
        assert((a + b).take(n) =~= a.take(n));
    }
}

/// An unfinished buffer, one byte that completes it, and the rest of the
/// stream: the first message is the buffer with that byte.
proof fn lemma_cut(delim: Seq<u8>, buffer: Seq<u8>, byte: u8, rest: Seq<u8>)
    requires
        unfinished(delim, buffer),
        delim.is_suffix_of(buffer.push(byte)),
    ensures
        ({
            let s = buffer.push(byte) + rest;
            let msg = buffer.push(byte).take(buffer.len() + 1 - delim.len());
            &&& frames(delim, s) == seq![msg] + frames(delim, rest)
            &&& leftover(delim, s) == leftover(delim, rest)
        }),
{
    let whole = buffer.push(byte);
    let s = whole + rest;
    let n: int = buffer.len() as int + 1;
    assert(s.take(n) =~= whole);
    assert(complete(delim, s, n));
    assert forall|m: int| 1 <= m < n implies !#[trigger] complete(delim, s, m) by {
        assert(s =~= buffer + (seq![byte] + rest));
        lemma_complete_in_prefix(delim, buffer, seq![byte] + rest, m);
    }
    lemma_first_end_is(delim, s, n);
    assert(s.skip(n) =~= rest);
    assert(s.take(n - delim.len()) =~= whole.take(n - delim.len()));
}

/// One more byte that completes nothing leaves the buffer unfinished.
proof fn lemma_still_unfinished(delim: Seq<u8>, buffer: Seq<u8>, byte: u8)
    requires
        unfinished(delim, buffer),
        !delim.is_suffix_of(buffer.push(byte)),
    ensures
        unfinished(delim, buffer.push(byte)),
{
    let whole = buffer.push(byte);
    assert forall|n: int| !#[trigger] complete(delim, whole, n) by {
        if 1 <= n <= buffer.len() {
            assert(whole =~= buffer + seq![byte]);
            lemma_complete_in_prefix(delim, buffer, seq![byte], n);
        } else if n == whole.len() {
            assert(whole.take(n) =~= whole);
        }
    }
}

/// The stream that carries the messages `msgs`, each with its delimiter.
pub open spec fn rejoined(delim: Seq<u8>, msgs: Seq<Seq<u8>>) -> Seq<u8>
    decreases msgs.len(),
{
    if msgs.len() == 0 {
        seq![]
    } else {
        msgs[0] + delim + rejoined(delim, msgs.skip(1))
    }
}

/// `msg` can be told from what follows it: its delimiter is complete at its own
/// end and nowhere before.
pub open spec fn separable(delim: Seq<u8>, msg: Seq<u8>) -> bool {
    &&& (msg + delim).len() > 0
    &&& forall|n: int| n < (msg + delim).len() ==> !#[trigger] complete(delim, msg + delim, n)
}

/// Where `s` has a complete message, it is the first message, its delimiter and
/// a shorter stream.
proof fn lemma_split_first(delim: Seq<u8>, s: Seq<u8>)
    requires
        first_end(delim, s, 1) <= s.len(),
    ensures
        ({
            let n = first_end(delim, s, 1);
            &&& 1 <= n
            &&& complete(delim, s, n)
            &&& delim.len() <= n
            &&& s == s.take(n - delim.len()) + delim + s.skip(n)
            &&& frames(delim, s) == seq![s.take(n - delim.len())] + frames(delim, s.skip(n))
            &&& leftover(delim, s) == leftover(delim, s.skip(n))
        }),
{
    lemma_first_end(delim, s, 1);
    let n: int = first_end(delim, s, 1);
    let head = s.take(n);
    assert(head =~= head.take(n - delim.len()) + delim);
    assert(head.take(n - delim.len()) =~= s.take(n - delim.len()));
    assert(s =~= head + s.skip(n));
}

/// A stream may be read in chunks of any size: what the first part leaves over
/// and the second part give the rest of the messages, and the same is left over
/// at the end.
pub proof fn law_chunks_do_not_matter(delim: Seq<u8>, a: Seq<u8>, b: Seq<u8>, hack: bool)
    ensures
        frames(delim, a + b) == frames(delim, a) + frames(delim, leftover(delim, a) + b),
        leftover(delim, a + b) == leftover(delim, leftover(delim, a) + b),
        forwarded(frames(delim, a + b), hack) == forwarded(frames(delim, a), hack) + forwarded(
            frames(delim, leftover(delim, a) + b),
            hack,
        ),
    decreases a.len(),
{
    lemma_first_end(delim, a, 1);
    let n: int = first_end(delim, a, 1);
    if n <= a.len() {
        let s = a + b;
        assert forall|m: int| 1 <= m <= n implies #[trigger] complete(delim, s, m) == complete(
            delim,
            a,
            m,
        ) by {
            lemma_complete_in_prefix(delim, a, b, m);
        }
        lemma_first_end_is(delim, s, n);
        law_chunks_do_not_matter(delim, a.skip(n), b, hack);
        assert(s.skip(n) =~= a.skip(n) + b);
        assert(s.take(n - delim.len()) =~= a.take(n - delim.len()));
        assert(frames(delim, a + b) =~= frames(delim, a) + frames(delim, leftover(delim, a) + b));
    } else {
        assert(frames(delim, a + b) =~= frames(delim, a) + frames(delim, leftover(delim, a) + b));
    }
    lemma_forwarded_concat(frames(delim, a), frames(delim, leftover(delim, a) + b), hack);
}

/// Messages are rewritten or dropped one by one.
proof fn lemma_forwarded_concat(a: Seq<Seq<u8>>, b: Seq<Seq<u8>>, hack: bool)
    ensures
        forwarded(a + b, hack) == forwarded(a, hack) + forwarded(b, hack),
    decreases b.len(),
{
    if b.len() == 0 {
        assert(a + b =~= a);
        reveal_with_fuel(Seq::filter_map, 1);
        assert(forwarded(a, hack) + forwarded(b, hack) =~= forwarded(a, hack));
    } else {
        lemma_forwarded_concat(a, b.drop_last(), hack);
        lemma_forwarded_push(a + b.drop_last(), b.last(), hack);
        lemma_forwarded_push(b.drop_last(), b.last(), hack);
        assert(a + b =~= (a + b.drop_last()).push(b.last()));
        assert(b =~= b.drop_last().push(b.last()));
        assert(forwarded(a + b, hack) =~= forwarded(a, hack) + forwarded(b, hack));
    }
}

/// Without rewriting, every message goes out as it came.
pub proof fn law_unchanged_without_rewriting(msgs: Seq<Seq<u8>>)
    ensures
        forwarded(msgs, false) == msgs,
    decreases msgs.len(),
{
    if msgs.len() == 0 {
        assert(forwarded(msgs, false) =~= msgs);
    } else {
        law_unchanged_without_rewriting(msgs.drop_last());
        lemma_forwarded_push(msgs.drop_last(), msgs.last(), false);
        assert(msgs =~= msgs.drop_last().push(msgs.last()));
    }
}

/// Messages as they came, written one behind the other, each with its
/// delimiter, reconstruct the stream up to what is still pending: a log of them
/// loses nothing, whatever goes out.
pub proof fn law_log_reconstructs_stream(delim: Seq<u8>, s: Seq<u8>)
    ensures
        rejoined(delim, frames(delim, s)) + leftover(delim, s) == s,
    decreases s.len(),
{
    lemma_first_end(delim, s, 1);
    let n: int = first_end(delim, s, 1);
    if n <= s.len() {
        lemma_split_first(delim, s);
        law_log_reconstructs_stream(delim, s.skip(n));
        let head = s.take(n - delim.len());
        let tail = frames(delim, s.skip(n));
        assert((seq![head] + tail).skip(1) =~= tail);
        assert(rejoined(delim, frames(delim, s)) + leftover(delim, s) =~= head + delim + (rejoined(
            delim,
            tail,
        ) + leftover(delim, s.skip(n))));
    } else {
        assert(rejoined(delim, frames(delim, s)) + leftover(delim, s) =~= s);
    }
}

/// Reading gives back what was written: messages that can be told apart come
/// out as they went in, and nothing is left over.
pub proof fn law_read_back(delim: Seq<u8>, msgs: Seq<Seq<u8>>)
    requires
        forall|i: int| 0 <= i < msgs.len() ==> #[trigger] separable(delim, msgs[i]),
    ensures
        frames(delim, rejoined(delim, msgs)) == msgs,
        leftover(delim, rejoined(delim, msgs)) == Seq::<u8>::empty(),
    decreases msgs.len(),
{
    let s = rejoined(delim, msgs);
    if msgs.len() == 0 {
        lemma_unfinished(delim, s);
        assert(frames(delim, s) =~= msgs);
    } else {
        let head = msgs[0] + delim;
        let rest = rejoined(delim, msgs.skip(1));
        assert(separable(delim, msgs[0]));
        assert forall|i: int| 0 <= i < msgs.skip(1).len() implies #[trigger] separable(
            delim,
            msgs.skip(1)[i],
        ) by {
            assert(separable(delim, msgs[i + 1]));
        }
        law_read_back(delim, msgs.skip(1));
        let n: int = head.len() as int;
        assert(s.take(n) =~= head);
        assert(delim =~= head.subrange(head.len() - delim.len(), head.len() as int));
        assert(complete(delim, s, n));
        assert forall|m: int| 1 <= m < n implies !#[trigger] complete(delim, s, m) by {
            lemma_complete_in_prefix(delim, head, rest, m);
            assert(!complete(delim, head, m));
        }
        lemma_first_end_is(delim, s, n);
        assert(s.skip(n) =~= rest);
        assert(s.take(n - delim.len()) =~= msgs[0]);
        assert(frames(delim, s) =~= msgs);
    }
}

/// An occurrence of a delimiter ends a message.
proof fn lemma_occurrence_completes(delim: Seq<u8>, s: Seq<u8>, at: int)
    requires
        delim.len() > 0,
        occurs_at(s, delim, at),
    ensures
        complete(delim, s, at + delim.len()),
{
    let n: int = at + delim.len();
    assert(s.take(n).subrange(n - delim.len(), n) =~= s.subrange(at, n));
}

/// No message holds the delimiter, and neither does what is left over.
pub proof fn law_messages_hold_no_delimiter(delim: Seq<u8>, s: Seq<u8>)
    requires
        delim.len() > 0,
    ensures
        forall|i: int|
            0 <= i < frames(delim, s).len() ==> !occurs(#[trigger] frames(delim, s)[i], delim),
        !occurs(leftover(delim, s), delim),
    decreases s.len(),
{
    lemma_first_end(delim, s, 1);
    let n: int = first_end(delim, s, 1);
    if n <= s.len() {
        lemma_split_first(delim, s);
        law_messages_hold_no_delimiter(delim, s.skip(n));
        let head = s.take(n - delim.len());
        assert forall|at: int| !#[trigger] occurs_at(head, delim, at) by {
            if occurs_at(head, delim, at) {
                assert(s.subrange(at, at + delim.len()) =~= head.subrange(at, at + delim.len()));
                lemma_occurrence_completes(delim, s, at);
            }
        }
        assert forall|i: int| 0 <= i < frames(delim, s).len() implies !occurs(
            #[trigger] frames(delim, s)[i],
            delim,
        ) by {
            if i > 0 {
                assert(frames(delim, s)[i] == frames(delim, s.skip(n))[i - 1]);
            }
        }
    } else {
        assert forall|at: int| !#[trigger] occurs_at(s, delim, at) by {
            if occurs_at(s, delim, at) {
                lemma_occurrence_completes(delim, s, at);
            }
        }
    }
}

/// Every message is cut at the earliest place: with its delimiter behind it, a
/// message holds the delimiter at its very end and nowhere before.
pub proof fn law_cut_at_the_earliest_place(delim: Seq<u8>, s: Seq<u8>)
    requires
        delim.len() > 0,
    ensures
        forall|i: int|
            0 <= i < frames(delim, s).len() ==> !occurs(
                (#[trigger] frames(delim, s)[i] + delim).drop_last(),
                delim,
            ),
    decreases s.len(),
{
    lemma_first_end(delim, s, 1);
    let n: int = first_end(delim, s, 1);
    if n <= s.len() {
        lemma_split_first(delim, s);
        law_cut_at_the_earliest_place(delim, s.skip(n));
        let head = s.take(n - delim.len());
        let short = (head + delim).drop_last();
        assert(short =~= s.take(n - 1));
        assert forall|at: int| !#[trigger] occurs_at(short, delim, at) by {
            if occurs_at(short, delim, at) {
                assert(s.subrange(at, at + delim.len()) =~= short.subrange(at, at + delim.len()));
                lemma_occurrence_completes(delim, s, at);
            }
        }
        assert forall|i: int| 0 <= i < frames(delim, s).len() implies !occurs(
            (#[trigger] frames(delim, s)[i] + delim).drop_last(),
            delim,
        ) by {
            if i > 0 {
                assert(frames(delim, s)[i] == frames(delim, s.skip(n))[i - 1]);
            }
        }
    }
}

/// With an empty delimiter every byte is a message of its own.
pub proof fn law_empty_delimiter(s: Seq<u8>)
    ensures
        frames(seq![], s) == s.map_values(|b: u8| seq![b]),
        leftover(seq![], s) == Seq::<u8>::empty(),
    decreases s.len(),
{
    let delim = Seq::<u8>::empty();
    if s.len() > 0 {
        assert(delim =~= s.take(1).subrange(1, 1));
        assert(complete(delim, s, 1));
        law_empty_delimiter(s.skip(1));
        assert(s.take(1) =~= seq![s[0]]);
    } else {
        lemma_unfinished(delim, s);
    }
    assert(frames(delim, s) =~= s.map_values(|b: u8| seq![b]));
}

/// The stream that carries messages is all of them, each with its delimiter,
/// one behind the other.
pub proof fn law_rejoined_is_concatenation(delim: Seq<u8>, msgs: Seq<Seq<u8>>)
    ensures
        rejoined(delim, msgs) == msgs.map_values(|m: Seq<u8>| m + delim).flatten(),
    decreases msgs.len(),
{
    let parts = msgs.map_values(|m: Seq<u8>| m + delim);
    if msgs.len() > 0 {
        law_rejoined_is_concatenation(delim, msgs.skip(1));
        assert(parts.drop_first() =~= msgs.skip(1).map_values(|m: Seq<u8>| m + delim));
    }
}

/// A stream of messages and the beginning of one more is read as these messages,
/// in their order, and that beginning stays over. The messages are any in which,
/// with the delimiter behind them, the delimiter stands at the end only.
pub proof fn law_stream_is_read(delim: Seq<u8>, msgs: Seq<Seq<u8>>, rest: Seq<u8>)
    requires
        delim.len() > 0,
        forall|i: int|
            0 <= i < msgs.len() ==> !occurs((#[trigger] msgs[i] + delim).drop_last(), delim),
        !occurs(rest, delim),
    ensures
        frames(delim, msgs.map_values(|m: Seq<u8>| m + delim).flatten() + rest) == msgs,
        leftover(delim, msgs.map_values(|m: Seq<u8>| m + delim).flatten() + rest) == rest,
{
    assert forall|i: int| 0 <= i < msgs.len() implies #[trigger] separable(delim, msgs[i]) by {
        let whole = msgs[i] + delim;
        assert forall|n: int| n < whole.len() implies !#[trigger] complete(delim, whole, n) by {
            if complete(delim, whole, n) {
                assert(whole.drop_last().subrange(n - delim.len(), n) =~= whole.take(n).subrange(
                    n - delim.len(),
                    n,
                ));
                assert(occurs_at(whole.drop_last(), delim, n - delim.len()));
            }
        }
    }
    law_read_back(delim, msgs);
    law_rejoined_is_concatenation(delim, msgs);
    let s = rejoined(delim, msgs);
    law_chunks_do_not_matter(delim, s, rest, false);
    assert(Seq::<u8>::empty() + rest =~= rest);
    assert forall|n: int| !#[trigger] complete(delim, rest, n) by {
        if complete(delim, rest, n) {
            assert(rest.subrange(n - delim.len(), n) =~= rest.take(n).subrange(
                n - delim.len(),
                n,
            ));
            assert(occurs_at(rest, delim, n - delim.len()));
        }
    }
    lemma_unfinished(delim, rest);
    assert(msgs + Seq::<Seq<u8>>::empty() =~= msgs);
}

/// What goes out for several messages is what goes out for each of them, in
/// their order; a dropped one leaves no trace.
pub proof fn law_messages_are_forwarded_one_by_one(
    a: Seq<Seq<u8>>,
    msg: Seq<u8>,
    b: Seq<Seq<u8>>,
    hack: bool,
)
    ensures
        outgoing(msg, hack) matches Some(out) ==> forwarded(a + seq![msg] + b, hack) == forwarded(
            a,
            hack,
        ) + seq![out] + forwarded(b, hack),
        outgoing(msg, hack) is None ==> forwarded(a + seq![msg] + b, hack) == forwarded(a, hack)
            + forwarded(b, hack),
        forwarded(seq![], hack) == Seq::<Seq<u8>>::empty(),
{
    lemma_forwarded_concat(a + seq![msg], b, hack);
    lemma_forwarded_push(a, msg, hack);
    assert(a + seq![msg] =~= a.push(msg));
    assert(forwarded(seq![], hack) =~= Seq::<Seq<u8>>::empty());
    if let Some(out) = outgoing(msg, hack) {
        assert(forwarded(a, hack).push(out) =~= forwarded(a, hack) + seq![out]);
    }
}

/// `contents` and `raws` take the bytes of each item, in their order.
pub proof fn law_contents_item_by_item(vs: Seq<Vec<u8>>, rs: Seq<Received>)
    ensures
        contents(vs).len() == vs.len(),
        forall|i: int| 0 <= i < vs.len() ==> #[trigger] contents(vs)[i] == vs[i]@,
        raws(rs).len() == rs.len(),
        forall|i: int| 0 <= i < rs.len() ==> #[trigger] raws(rs)[i] == rs[i].raw@,
{
}

} // verus!
