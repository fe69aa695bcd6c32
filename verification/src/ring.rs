//! The bounded queue between the reading side and the sending side.
use std::collections::VecDeque;

use vstd::prelude::*;

use crate::framing::contents;

verus! {

/// The last `n` items of `s`, or all of them where there are no more.
pub open spec fn newest(s: Seq<Seq<u8>>, n: nat) -> Seq<Seq<u8>> {
    if s.len() <= n {
        s
    } else {
        s.skip(s.len() - n)
    }
}

/// Complete messages in the order in which they came. When the ring is full,
/// the oldest message makes room for the new one.
pub struct Ring {
    queue: VecDeque<Vec<u8>>,
    capacity: usize,
}

impl View for Ring {
    type V = Seq<Seq<u8>>;

    closed spec fn view(&self) -> Seq<Seq<u8>> {
        contents(self.queue@)
    }
}

impl Ring {
    /// The capacity that the ring was made with.
    pub closed spec fn capacity(self) -> nat {
        self.capacity as nat
    }

    /// The ring holds no more than its capacity.
    pub open spec fn wf(self) -> bool {
        self@.len() <= self.capacity()
    }

    /// An empty ring.
    pub fn new(capacity: usize) -> (r: Ring)
        ensures
            r.wf(),
            r@ == Seq::<Seq<u8>>::empty(),
            r.capacity() == capacity,
    {
        let r = Ring { queue: VecDeque::new(), capacity };
        assert(r@ =~= Seq::<Seq<u8>>::empty());
        r
    }

    /// Takes in `msg`, dropping the oldest message where the ring is full. A
    /// ring without capacity stays empty.
    pub fn push(&mut self, msg: Vec<u8>)
        requires
            old(self).wf(),
        ensures
            final(self).wf(),
            final(self).capacity() == old(self).capacity(),
            final(self)@ == newest(old(self)@.push(msg@), old(self).capacity()),
            old(self)@.len() < old(self).capacity() ==> final(self)@ == old(self)@.push(msg@),
            old(self)@.len() == old(self).capacity() && old(self).capacity() > 0 ==> final(self)@
                == old(self)@.skip(1).push(msg@),
    {
        self.queue.push_back(msg);
        if self.queue.len() > self.capacity {
            self.queue.pop_front();
        }
        assert(self@ =~= newest(old(self)@.push(msg@), old(self).capacity()));
        proof {
            law_push_appends(old(self)@, msg@, old(self).capacity());
        }
    }

    /// Gives out the oldest message; there is none exactly where the ring is
    /// empty.
    pub fn pop(&mut self) -> (r: Option<Vec<u8>>)
        requires
            old(self).wf(),
        ensures
            final(self).wf(),
            final(self).capacity() == old(self).capacity(),
            r is None <==> old(self)@.len() == 0,
            r matches Some(msg) ==> msg@ == old(self)@[0] && final(self)@ == old(self)@.skip(1),
            r is None ==> final(self)@ == old(self)@,
    {
        let r = self.queue.pop_front();
        proof {
            if r is Some {
                assert(self@ =~= old(self)@.skip(1));
            }
        }
        r
    }
}

/// The ring's messages after `msgs` were pushed one by one, none taken out.
pub open spec fn after_pushes(held: Seq<Seq<u8>>, msgs: Seq<Seq<u8>>, capacity: nat) -> Seq<Seq<u8>>
    decreases msgs.len(),
{
    if msgs.len() == 0 {
        held
    } else {
        newest(after_pushes(held, msgs.drop_last(), capacity).push(msgs.last()), capacity)
    }
}

/// What `n` pops give, in their order, from a ring that holds `held`.
pub open spec fn popped(held: Seq<Seq<u8>>, n: nat) -> Seq<Seq<u8>>
    decreases n,
{
    if n == 0 || held.len() == 0 {
        seq![]
    } else {
        seq![held[0]] + popped(held.skip(1), (n - 1) as nat)
    }
}

/// A ring that is pushed to and not read holds the newest messages, as many as
/// its capacity, oldest first: what is dropped is always the oldest.
pub proof fn law_oldest_are_dropped(held: Seq<Seq<u8>>, msgs: Seq<Seq<u8>>, capacity: nat)
    requires
        held.len() <= capacity,
    ensures
        after_pushes(held, msgs, capacity) == newest(held + msgs, capacity),
        after_pushes(held, msgs, capacity).len() <= capacity,
    decreases msgs.len(),
{
    if msgs.len() == 0 {
        assert(held + msgs =~= held);
    } else {
        law_oldest_are_dropped(held, msgs.drop_last(), capacity);
        assert(after_pushes(held, msgs, capacity) =~= newest(held + msgs, capacity));
    }
}

/// Messages leave in the order in which they came, and none is missed: as many
/// pops as there are messages give all of them.
pub proof fn law_first_in_first_out(held: Seq<Seq<u8>>)
    ensures
        popped(held, held.len()) == held,
    decreases held.len(),
{
    if held.len() > 0 {
        law_first_in_first_out(held.skip(1));
    }
    assert(popped(held, held.len()) =~= held);
}

/// As long as the capacity is not exceeded nothing is lost: what was pushed into
/// an empty ring comes out again, in the same order.
pub proof fn law_nothing_lost_within_capacity(msgs: Seq<Seq<u8>>, capacity: nat)
    requires
        msgs.len() <= capacity,
    ensures
        popped(after_pushes(seq![], msgs, capacity), msgs.len()) == msgs,
{
    law_oldest_are_dropped(seq![], msgs, capacity);
    assert(Seq::<Seq<u8>>::empty() + msgs =~= msgs);
    law_first_in_first_out(msgs);
}

/// A message is always taken in where there is any capacity, and behind all the
/// others; nothing is lost while there is room, and one message, the oldest,
/// where there is none.
pub proof fn law_push_appends(held: Seq<Seq<u8>>, msg: Seq<u8>, capacity: nat)
    requires
        held.len() <= capacity,
    ensures
        capacity > 0 ==> newest(held.push(msg), capacity).len() > 0 && newest(
            held.push(msg),
            capacity,
        ).last() == msg,
        held.len() < capacity ==> newest(held.push(msg), capacity) == held.push(msg),
        held.len() == capacity && capacity > 0 ==> newest(held.push(msg), capacity) == held.skip(
            1,
        ).push(msg),
        capacity == 0 ==> newest(held.push(msg), capacity).len() == 0,
{
    if held.len() == capacity && capacity > 0 {
        assert(newest(held.push(msg), capacity) =~= held.skip(1).push(msg));
    }
}

/// After any pushes the ring holds an end piece of all that it held and got:
/// the whole of it where that fits, as much as fits otherwise.
pub proof fn law_ring_holds_an_end_piece(
    held: Seq<Seq<u8>>,
    msgs: Seq<Seq<u8>>,
    capacity: nat,
)
    requires
        held.len() <= capacity,
    ensures
        after_pushes(held, msgs, capacity).is_suffix_of(held + msgs),
        after_pushes(held, msgs, capacity).len() == if held.len() + msgs.len() <= capacity {
            held.len() + msgs.len()
        } else {
            capacity
        },
{
    law_oldest_are_dropped(held, msgs, capacity);
    let all = held + msgs;
    let kept = after_pushes(held, msgs, capacity);
    assert(kept =~= all.subrange(all.len() - kept.len(), all.len() as int));
}

} // verus!
