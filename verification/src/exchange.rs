//! All-to-all variable-sized exchange built on the point-to-point
//! transport.
//!
//! Discipline: every rank first issues a send (possibly empty) to every
//! other rank, then receives from every other rank.  This relies on the
//! transport buffering enough outstanding sends to avoid deadlock — a
//! known limitation for very large payloads, tolerated as a design
//! constraint of the substrate.  The exchange is barrier-like, so the
//! model drives every rank's send phase and then every rank's receive
//! phase in one call over the shared substrate state.

use vstd::prelude::*;

use crate::communication::MpiWorld;
use crate::communication::Network;
use crate::communication::WireMsg;
use crate::communication::message_content;
use crate::communication::message_size;
use crate::communication::pending_message;
use crate::data_by_rank::DataByRank;

verus! {

/// Per-rank coordinator for the all-to-all exchange on one channel.
pub struct ExchangeCommunicator<T> {
    pub world: MpiWorld<T>,
}

impl<T> From<MpiWorld<T>> for ExchangeCommunicator<T> {
    /// Wraps a channel handle as an exchange coordinator.
    fn from(world: MpiWorld<T>) -> (r: Self) {
        ExchangeCommunicator { world }
    }
}

impl<T> vstd::std_specs::convert::FromSpecImpl<MpiWorld<T>> for ExchangeCommunicator<T> {
    open spec fn obeys_from_spec() -> bool {
        true
    }

    open spec fn from_spec(world: MpiWorld<T>) -> Self {
        ExchangeCommunicator { world }
    }
}

/// One coordinator per rank, rank `i` at index `i`, all of one
/// communicator of exactly this size.
pub open spec fn consistent_comms<T>(comms: Seq<ExchangeCommunicator<T>>) -> bool {
    forall|i: int|
        0 <= i < comms.len() ==> (#[trigger] comms[i]).world.world.rank == i
            && comms[i].world.world.size == comms.len()
}

/// The queue holds exactly one length-prefixed message carrying `content`.
pub open spec fn one_message<T>(q: Seq<WireMsg<T>>, content: Seq<T>) -> bool {
    &&& pending_message(q)
    &&& message_content(q) == content
    &&& q.len() == message_size(q)
}

impl<T> ExchangeCommunicator<T> {
    /// This rank's identity.
    pub fn rank(&self) -> (r: usize)
        ensures
            r == self.world.world.rank,
    {
        self.world.rank()
    }

    /// The fixed process count.
    pub fn size(&self) -> (r: usize)
        ensures
            r == self.world.world.size,
    {
        self.world.size()
    }
}

/// The all-to-all exchange: rank `a`'s buffer for rank `b` arrives as rank
/// `b`'s incoming buffer from rank `a`, unchanged and in its original
/// order.  Requires a quiet channel — no other traffic shares it — and
/// leaves it quiet again.
pub fn exchange_all<T>(
    comms: &Vec<ExchangeCommunicator<T>>,
    net: &mut Network<T>,
    outgoing: Vec<DataByRank<T>>,
) -> (incoming: Vec<DataByRank<T>>)
    requires
        consistent_comms(comms@),
        old(net).wf(),
        old(net).spec_size() == comms@.len(),
        old(net).all_quiet(),
        outgoing@.len() == comms@.len(),
        forall|a: int| 0 <= a < outgoing@.len() ==> (#[trigger] outgoing@[a]).wf(comms@.len() as int),
    ensures
        final(net).wf(),
        final(net).spec_size() == old(net).spec_size(),
        final(net).all_quiet(),
        incoming@.len() == comms@.len(),
        forall|b: int|
            0 <= b < comms@.len() ==> (#[trigger] incoming@[b]).wf(comms@.len() as int)
                && incoming@[b].rank == b,
        forall|b: int, a: int|
            0 <= b < comms@.len() && 0 <= a < comms@.len() && a != b
                ==> (#[trigger] incoming@[b].spec_get(a)) == outgoing@[a].spec_get(b),
        forall|b: int|
            0 <= b < comms@.len() ==> (#[trigger] incoming@[b].spec_get(b)) == Seq::<T>::empty(),
{
    let size = comms.len();
    let mut outgoing = outgoing;
    let ghost out0 = outgoing@;
    // send phase: every rank sends its staged buffer to every other rank
    let mut a: usize = 0;
    while a < size
        invariant
            a <= size,
            size == comms@.len(),
            consistent_comms(comms@),
            net.wf(),
            net.spec_size() == size,
            outgoing@.len() == size,
            out0.len() == size,
            forall|s: int| 0 <= s < size ==> (#[trigger] out0[s]).wf(size as int),
            forall|s: int| 0 <= s < size ==> (#[trigger] outgoing@[s]).wf(size as int),
            forall|s: int, d: int|
                a <= s < size && 0 <= d < size ==> (#[trigger] outgoing@[s].spec_get(d)) == out0[s].spec_get(
                    d,
                ),
            forall|s: int, d: int|
                0 <= s < a && 0 <= d < size && s != d ==> one_message(
                    #[trigger] net.queue(s, d),
                    out0[s].spec_get(d),
                ),
            forall|s: int, d: int|
                a <= s < size && 0 <= d < size ==> (#[trigger] net.queue(s, d)).len() == 0,
            forall|s: int| 0 <= s < size ==> (#[trigger] net.queue(s, s)).len() == 0,
        decreases size - a,
    {
        let mut b: usize = 0;
        while b < size
            invariant
                b <= size,
                a < size,
                size == comms@.len(),
                consistent_comms(comms@),
                net.wf(),
                net.spec_size() == size,
                outgoing@.len() == size,
                out0.len() == size,
                forall|s: int| 0 <= s < size ==> (#[trigger] out0[s]).wf(size as int),
                forall|s: int| 0 <= s < size ==> (#[trigger] outgoing@[s]).wf(size as int),
                forall|s: int, d: int|
                    a < s < size && 0 <= d < size ==> (#[trigger] outgoing@[s].spec_get(d))
                        == out0[s].spec_get(d),
                forall|d: int|
                    b <= d < size ==> (#[trigger] outgoing@[a as int].spec_get(d))
                        == out0[a as int].spec_get(d),
                forall|s: int, d: int|
                    0 <= s < a && 0 <= d < size && s != d ==> one_message(
                        #[trigger] net.queue(s, d),
                        out0[s].spec_get(d),
                    ),
                forall|d: int|
                    0 <= d < b && d != a ==> one_message(
                        #[trigger] net.queue(a as int, d),
                        out0[a as int].spec_get(d),
                    ),
                forall|d: int|
                    b <= d < size ==> (#[trigger] net.queue(a as int, d)).len() == 0,
                forall|s: int, d: int|
                    a < s < size && 0 <= d < size ==> (#[trigger] net.queue(s, d)).len() == 0,
                forall|s: int| 0 <= s < size ==> (#[trigger] net.queue(s, s)).len() == 0,
            decreases size - b,
        {
            if b != a {
                let ghost row_before = outgoing@[a as int];
                let data = outgoing[a].take(b);
                let count = data.len();
                let ghost sent = data@;
                proof {
                    let row_now = outgoing@[a as int];
                    assert forall|d: int|
                        0 <= d < size && d != b implies row_now.spec_get(d) == row_before.spec_get(
                        d,
                    ) by {
                        assert(row_now.data@[d] == row_before.data@[d]);
                    }
                }
                comms[a].world.blocking_send_vec(net, b, data);
                proof {
                    assert(sent.len() == count);
                    let q = net.queue(a as int, b as int);
                    if sent.len() == 0 {
                        assert(sent =~= Seq::<T>::empty());
                        assert(q.len() == 1);
                        assert(q[0] == WireMsg::<T>::Count(0));
                    } else {
                        assert(q.len() == 2);
                        assert(q[0] == WireMsg::<T>::Count(sent.len() as u64));
                        assert(q[1] is Payload && q[1]->Payload_0@ == sent);
                    }
                    assert(one_message(q, sent));
                }
            }
            b += 1;
        }
        a += 1;
    }
    // receive phase: every rank drains one message from every other rank
    let mut incoming: Vec<DataByRank<T>> = Vec::new();
    let mut bb: usize = 0;
    while bb < size
        invariant
            bb <= size,
            size == comms@.len(),
            consistent_comms(comms@),
            net.wf(),
            net.spec_size() == size,
            out0.len() == size,
            forall|s: int| 0 <= s < size ==> (#[trigger] out0[s]).wf(size as int),
            incoming@.len() == bb,
            forall|k: int|
                0 <= k < bb ==> (#[trigger] incoming@[k]).wf(size as int) && incoming@[k].rank == k,
            forall|k: int, s: int|
                0 <= k < bb && 0 <= s < size && s != k ==> (#[trigger] incoming@[k].spec_get(s))
                    == out0[s].spec_get(k),
            forall|k: int|
                0 <= k < bb ==> (#[trigger] incoming@[k].spec_get(k)) == Seq::<T>::empty(),
            forall|s: int, d: int|
                0 <= s < size && bb <= d < size && s != d ==> one_message(
                    #[trigger] net.queue(s, d),
                    out0[s].spec_get(d),
                ),
            forall|s: int, d: int|
                0 <= s < size && 0 <= d < bb ==> (#[trigger] net.queue(s, d)).len() == 0,
            forall|s: int| 0 <= s < size ==> (#[trigger] net.queue(s, s)).len() == 0,
        decreases size - bb,
    {
        let mut received: DataByRank<T> = DataByRank::from_size_and_rank(size, bb);
        let mut s: usize = 0;
        while s < size
            invariant
                s <= size,
                bb < size,
                size == comms@.len(),
                consistent_comms(comms@),
                net.wf(),
                net.spec_size() == size,
                out0.len() == size,
                forall|k: int| 0 <= k < size ==> (#[trigger] out0[k]).wf(size as int),
                received.wf(size as int),
                received.rank == bb,
                forall|k: int|
                    0 <= k < s && k != bb ==> (#[trigger] received.spec_get(k)) == out0[k].spec_get(
                        bb as int,
                    ),
                forall|k: int|
                    0 <= k < size && (k >= s || k == bb) ==> (#[trigger] received.spec_get(k))
                        == Seq::<T>::empty(),
                forall|k: int, d: int|
                    0 <= k < size && bb < d < size && k != d ==> one_message(
                        #[trigger] net.queue(k, d),
                        out0[k].spec_get(d),
                    ),
                forall|k: int|
                    s <= k < size && k != bb ==> one_message(
                        #[trigger] net.queue(k, bb as int),
                        out0[k].spec_get(bb as int),
                    ),
                forall|k: int, d: int|
                    0 <= k < size && 0 <= d < bb ==> (#[trigger] net.queue(k, d)).len() == 0,
                forall|k: int|
                    0 <= k < s && k != bb ==> (#[trigger] net.queue(k, bb as int)).len() == 0,
                forall|k: int| 0 <= k < size ==> (#[trigger] net.queue(k, k)).len() == 0,
            decreases size - s,
        {
            if s != bb {
                let ghost recv_before = received;
                let data = comms[bb].world.receive_vec(net, s);
                proof {
                    // the pair's queue held exactly that one message
                    assert(net.queue(s as int, bb as int).len() == 0);
                }
                received.insert(s, data);
                proof {
                    assert(received.spec_get(s as int) == out0[s as int].spec_get(bb as int));
                    assert forall|k: int| 0 <= k < size && k != s implies received.spec_get(k)
                        == recv_before.spec_get(k) by {
                        assert(received.data@[k] == recv_before.data@[k]);
                    }
                }
            }
            s += 1;
        }
        incoming.push(received);
        bb += 1;
    }
    incoming
}

} // verus!
