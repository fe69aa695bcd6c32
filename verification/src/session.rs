//! Everything that a run starts from.
use tokio_serial::SerialPortBuilder;
use vstd::prelude::*;

use crate::args::RunArgs;
use crate::framing::{
    forwarded, frames, law_read_back, law_unchanged_without_rewriting, rejoined, separable, Framer,
};
use crate::numbers::{decimal, push_decimal};
use crate::ring::{
    after_pushes, law_nothing_lost_within_capacity, law_oldest_are_dropped, newest, popped, Ring,
};
use crate::serial::{serial_builder, serial_settings};
use crate::stats::StatsPrinter;
use crate::terminator::{decode_terminator, terminator};

verus! {

/// The destination `ip:port` as text.
pub fn remote_addr(ip: &str, port: u16) -> (r: String)
    ensures
        r@ == ip@ + ":"@ + decimal(port as nat),
{
    let mut out: String = ip.to_owned();
    out.append(":");
    push_decimal(&mut out, port as u64);
    out
}

/// The parts of a run before the first byte is read.
pub struct Session {
    /// The settings with which the serial port is opened.
    pub serial: SerialPortBuilder,
    /// Where datagrams go.
    pub remote_addr: String,
    /// The reading side.
    pub framer: Framer,
    /// The messages that wait to be sent.
    pub ring: Ring,
    /// The statistics.
    pub stats: StatsPrinter,
}

impl Session {
    /// The parts of the run that `args` asks for, on the port that was selected.
    pub fn new(args: &RunArgs, port_name: &str) -> (r: Session)
        ensures
            r.serial == serial_settings(port_name@, args.baud),
            r.remote_addr@ == args.udp_ip@ + ":"@ + decimal(args.udp_port as nat),
            r.framer.wf(),
            r.framer.delim() == terminator(args.terminator@),
            r.framer.hacked() == args.hack,
            r.framer.pending() == Seq::<u8>::empty(),
            r.ring.wf(),
            r.ring@ == Seq::<Seq<u8>>::empty(),
            r.ring.capacity() == args.buffer,
            r.stats.interval_secs == args.stats_interval,
            r.stats.last_count == 0,
    {
        Session {
            serial: serial_builder(port_name, args.baud),
            remote_addr: remote_addr(args.udp_ip.as_str(), args.udp_port),
            framer: Framer::new(decode_terminator(args.terminator.as_str()), args.hack),
            ring: Ring::new(args.buffer),
            stats: StatsPrinter::new(args.stats_interval),
        }
    }
}

/// What a device writes is what goes out: messages that can be told apart, each
/// written with its delimiter, wait in the ring in their order, the newest as
/// many as the ring holds; where all of them fit, popping gives every one.
pub proof fn law_messages_arrive(delim: Seq<u8>, msgs: Seq<Seq<u8>>, capacity: nat)
    requires
        forall|i: int| 0 <= i < msgs.len() ==> #[trigger] separable(delim, msgs[i]),
    ensures
        ({
            let read = forwarded(frames(delim, rejoined(delim, msgs)), false);
            let held = after_pushes(seq![], read, capacity);
            &&& held == newest(msgs, capacity)
            &&& msgs.len() <= capacity ==> popped(held, msgs.len()) == msgs
        }),
{
    law_read_back(delim, msgs);
    law_unchanged_without_rewriting(msgs);
    law_oldest_are_dropped(seq![], msgs, capacity);
    assert(Seq::<Seq<u8>>::empty() + msgs =~= msgs);
    if msgs.len() <= capacity {
        law_nothing_lost_within_capacity(msgs, capacity);
    }
}

} // verus!
