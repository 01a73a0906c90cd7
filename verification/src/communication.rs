//! Point-to-point and collective transport over an explicit substrate.
//!
//! The substrate state is a `Network` value: one FIFO queue of wire
//! messages per (sender, receiver) pair of one logical channel.  Every
//! transfer is length-prefixed — a count message, then (if non-zero) the
//! payload — and within one channel and pair, sends and receives pair up
//! strictly in call order.  Collectives are barrier-like: every rank
//! invokes them together, so the model takes each rank's contribution and
//! returns each rank's result in one call, after the explicit channel-tag
//! agreement check.
//!
//! Element types are plain fixed-layout data (`Copy`): heap-owning payloads
//! must be flattened into fixed-layout records before entering the
//! transport.

use core::marker::PhantomData;

use vstd::prelude::*;

use crate::data_by_rank::DataByRank;

verus! {

/// Identity of one participant in the messaging substrate: its rank and
/// the fixed process count.
#[derive(Clone, Copy, Debug, PartialEq, Eq, Structural)]
pub struct SystemCommunicator {
    pub rank: usize,
    pub size: usize,
}

impl SystemCommunicator {
    /// A valid identity: the rank lies inside the fixed process count.
    pub open spec fn wf(self) -> bool {
        self.rank < self.size
    }
}

/// Process-wide handle to the messaging substrate.  Created once at
/// process start and explicitly torn down exactly once at process exit;
/// `world` hands out the communicator identity while the handle is active.
pub struct StaticUniverse {
    universe: Option<SystemCommunicator>,
}

impl StaticUniverse {
    /// Whether the substrate is still initialized.
    pub closed spec fn is_active(self) -> bool {
        self.universe is Some
    }

    /// The identity held while active.
    pub closed spec fn spec_world(self) -> SystemCommunicator
        recommends
            self.is_active(),
    {
        self.universe->Some_0
    }

    /// Initializes the substrate handle for this process.
    pub fn new(rank: usize, size: usize) -> (r: Self)
        requires
            rank < size,
        ensures
            r.is_active(),
            r.spec_world() == (SystemCommunicator { rank, size }),
            r.spec_world().wf(),
    {
        StaticUniverse { universe: Some(SystemCommunicator { rank, size }) }
    }

    /// The communicator identity of this process.
    pub fn world(&self) -> (r: SystemCommunicator)
        requires
            self.is_active(),
        ensures
            r == self.spec_world(),
    {
        match &self.universe {
            Some(world) => *world,
            None => {
                proof {
                    assert(false);
                }
                SystemCommunicator { rank: 0, size: 1 }
            },
        }
    }

    /// Tears the substrate down.  Called exactly once, after all
    /// communication completes.
    pub fn drop(&mut self)
        requires
            old(self).is_active(),
        ensures
            !final(self).is_active(),
    {
        self.universe = None;
    }
}

/// Logical channel identifier shared by all ranks of one communicator.
#[derive(Clone, Copy, Debug, PartialEq, Eq, Structural)]
pub struct Tag(pub i32);

impl Default for Tag {
    /// The default channel.
    fn default() -> (r: Self)
        ensures
            r.0 == 0,
    {
        Tag(0)
    }
}

/// One message on the wire: an element count, or a payload of previously
/// announced length.
pub enum WireMsg<T> {
    Count(u64),
    Payload(Vec<T>),
}

/// The substrate state of one logical channel: a FIFO queue of wire
/// messages for every (sender, receiver) pair.
pub struct Network<T> {
    size: usize,
    queues: Vec<Vec<Vec<WireMsg<T>>>>,
}

impl<T> Network<T> {
    /// A queue exists for every ordered pair of ranks.
    pub closed spec fn wf(self) -> bool {
        &&& self.queues@.len() == self.size
        &&& forall|s: int| 0 <= s < self.size ==> (#[trigger] self.queues@[s])@.len() == self.size
    }

    /// The fixed process count this channel serves.
    pub closed spec fn spec_size(self) -> int {
        self.size as int
    }

    /// The FIFO queue from `src` to `dst`.
    pub closed spec fn queue(self, src: int, dst: int) -> Seq<WireMsg<T>>
        recommends
            self.wf(),
            0 <= src < self.spec_size(),
            0 <= dst < self.spec_size(),
    {
        self.queues@[src]@[dst]@
    }
}

/// The queue head holds one complete length-prefixed message: a count,
/// followed by a payload of exactly that length when the count is
/// non-zero.
pub open spec fn pending_message<T>(q: Seq<WireMsg<T>>) -> bool {
    &&& q.len() >= 1
    &&& q[0] is Count
    &&& (q[0]->Count_0 > 0 ==> q.len() >= 2 && q[1] is Payload && q[1]->Payload_0@.len() == q[0]
        ->Count_0)
}

/// The elements carried by the message at the queue head.
pub open spec fn message_content<T>(q: Seq<WireMsg<T>>) -> Seq<T>
    recommends
        pending_message(q),
{
    if q[0]->Count_0 == 0 {
        Seq::empty()
    } else {
        q[1]->Payload_0@
    }
}

/// How many wire messages the message at the queue head occupies.
pub open spec fn message_size<T>(q: Seq<WireMsg<T>>) -> int
    recommends
        pending_message(q),
{
    if q[0]->Count_0 == 0 {
        1
    } else {
        2
    }
}

impl<T> Network<T> {
    /// All queues of the channel are empty: no traffic in flight.
    pub open spec fn all_quiet(self) -> bool {
        forall|s: int, d: int|
            0 <= s < self.spec_size() && 0 <= d < self.spec_size() ==> (#[trigger] self.queue(
                s,
                d,
            )).len() == 0
    }

    /// A fresh, quiet channel for `size` ranks.
    pub fn new(size: usize) -> (r: Self)
        ensures
            r.wf(),
            r.spec_size() == size,
            r.all_quiet(),
    {
        let mut queues: Vec<Vec<Vec<WireMsg<T>>>> = Vec::new();
        let mut s: usize = 0;
        while s < size
            invariant
                s <= size,
                queues@.len() == s,
                forall|a: int|
                    0 <= a < s ==> (#[trigger] queues@[a])@.len() == size && forall|b: int|
                        0 <= b < size ==> (#[trigger] queues@[a]@[b])@.len() == 0,
            decreases size - s,
        {
            let mut row: Vec<Vec<WireMsg<T>>> = Vec::new();
            let mut d: usize = 0;
            while d < size
                invariant
                    d <= size,
                    row@.len() == d,
                    forall|b: int| 0 <= b < d ==> (#[trigger] row@[b])@.len() == 0,
                decreases size - d,
            {
                row.push(Vec::new());
                d += 1;
            }
            queues.push(row);
            s += 1;
        }
        Network { size, queues }
    }

    /// The fixed process count this channel serves.
    pub fn size(&self) -> (r: usize)
        ensures
            r == self.spec_size(),
    {
        self.size
    }
}

/// Witness of an in-flight non-blocking send.  In this substrate a
/// buffered send completes at enqueue time; the guard keeps the caller to
/// the discipline of resolving every pending operation before reusing or
/// releasing its resources.
#[derive(Clone, Copy, Debug)]
pub struct SendGuard {
    pub dest: usize,
    pub count: usize,
}

impl SendGuard {
    /// Resolves the pending operation.
    pub fn wait(self) -> (r: usize)
        ensures
            r == self.count,
    {
        self.count
    }
}

/// Per-rank handle to one logical channel: the process identity, the
/// channel tag, and the element type the channel carries.
pub struct MpiWorld<T> {
    pub world: SystemCommunicator,
    pub tag: Tag,
    pub _marker: PhantomData<T>,
}

impl<T> MpiWorld<T> {
    /// This handle and a substrate state describe the same communicator.
    pub open spec fn compatible(self, net: Network<T>) -> bool {
        &&& net.wf()
        &&& self.world.wf()
        &&& net.spec_size() == self.world.size
    }

    /// Channel handle for this process on channel `tag`.
    pub fn new(world: SystemCommunicator, tag: Tag) -> (r: Self)
        ensures
            r.world == world,
            r.tag == tag,
    {
        MpiWorld { world, tag, _marker: PhantomData }
    }

    /// This process's rank.
    pub fn rank(&self) -> (r: usize)
        ensures
            r == self.world.rank,
    {
        self.world.rank
    }

    /// The fixed process count.
    pub fn size(&self) -> (r: usize)
        ensures
            r == self.world.size,
    {
        self.world.size
    }

    /// Sends `data` to `dest` as an element count followed by the payload
    /// (omitted when empty), appended to the pair's FIFO queue.  Blocking:
    /// in this substrate the transfer is buffered and completes at once.
    pub fn blocking_send_vec(&self, net: &mut Network<T>, dest: usize, data: Vec<T>)
        requires
            self.compatible(*old(net)),
            dest < old(net).spec_size(),
        ensures
            final(net).wf(),
            final(net).spec_size() == old(net).spec_size(),
            data@.len() == 0 ==> final(net).queue(self.world.rank as int, dest as int) == old(
                net,
            ).queue(self.world.rank as int, dest as int).push(WireMsg::Count(0)),
            data@.len() > 0 ==> final(net).queue(self.world.rank as int, dest as int) == old(
                net,
            ).queue(self.world.rank as int, dest as int).push(
                WireMsg::Count(data@.len() as u64),
            ).push(WireMsg::Payload(data)),
            forall|s: int, d: int|
                0 <= s < old(net).spec_size() && 0 <= d < old(net).spec_size() && !(s
                    == self.world.rank && d == dest) ==> #[trigger] final(net).queue(s, d) == old(
                    net,
                ).queue(s, d),
    {
        let num = data.len();
        let rank = self.world.rank;
        self.enqueue(net, dest, WireMsg::Count(num as u64));
        if num > 0 {
            self.enqueue(net, dest, WireMsg::Payload(data));
        }
    }

    /// Appends one wire message to this process's queue towards `dest`.
    fn enqueue(&self, net: &mut Network<T>, dest: usize, msg: WireMsg<T>)
        requires
            self.compatible(*old(net)),
            dest < old(net).spec_size(),
        ensures
            final(net).wf(),
            final(net).spec_size() == old(net).spec_size(),
            final(net).queue(self.world.rank as int, dest as int) == old(net).queue(
                self.world.rank as int,
                dest as int,
            ).push(msg),
            forall|s: int, d: int|
                0 <= s < old(net).spec_size() && 0 <= d < old(net).spec_size() && !(s
                    == self.world.rank && d == dest) ==> #[trigger] final(net).queue(s, d) == old(
                    net,
                ).queue(s, d),
    {
        let rank = self.world.rank;
        net.queues[rank][dest].push(msg);
    }

    /// Receives the next length-prefixed message from `src`: the count,
    /// then (when non-zero) the payload.  Blocking: the message must
    /// already be in flight, which the precondition states; a missing
    /// counterpart would stall the process forever in the fail-stop model.
    pub fn receive_vec(&self, net: &mut Network<T>, src: usize) -> (r: Vec<T>)
        requires
            self.compatible(*old(net)),
            src < old(net).spec_size(),
            pending_message(old(net).queue(src as int, self.world.rank as int)),
        ensures
            final(net).wf(),
            final(net).spec_size() == old(net).spec_size(),
            r@ == message_content(old(net).queue(src as int, self.world.rank as int)),
            final(net).queue(src as int, self.world.rank as int) == old(net).queue(
                src as int,
                self.world.rank as int,
            ).skip(message_size(old(net).queue(src as int, self.world.rank as int))),
            forall|s: int, d: int|
                0 <= s < old(net).spec_size() && 0 <= d < old(net).spec_size() && !(s == src && d
                    == self.world.rank) ==> #[trigger] final(net).queue(s, d) == old(net).queue(
                    s,
                    d,
                ),
    {
        let rank = self.world.rank;
        let first = net.queues[src][rank].remove(0);
        let num_received: u64 = match first {
            WireMsg::Count(n) => n,
            WireMsg::Payload(_) => {
                proof {
                    assert(false);
                }
                0
            },
        };
        if num_received > 0 {
            let second = net.queues[src][rank].remove(0);
            match second {
                WireMsg::Payload(data) => data,
                WireMsg::Count(_) => {
                    proof {
                        assert(false);
                    }
                    Vec::new()
                },
            }
        } else {
            Vec::new()
        }
    }

    /// Non-blocking send: the same length-prefixed transfer, returning a
    /// guard (for a non-empty payload) that the caller resolves before
    /// reusing the buffer.  This exists to avoid deadlock when two ranks
    /// send to each other concurrently with the blocking form.
    #[must_use]
    pub fn immediate_send_vec(&self, net: &mut Network<T>, dest: usize, data: Vec<T>) -> (g: Option<
        SendGuard,
    >)
        requires
            self.compatible(*old(net)),
            dest < old(net).spec_size(),
        ensures
            final(net).wf(),
            final(net).spec_size() == old(net).spec_size(),
            g is Some <==> data@.len() > 0,
            g matches Some(guard) ==> guard.dest == dest && guard.count == data@.len(),
            data@.len() == 0 ==> final(net).queue(self.world.rank as int, dest as int) == old(
                net,
            ).queue(self.world.rank as int, dest as int).push(WireMsg::Count(0)),
            data@.len() > 0 ==> final(net).queue(self.world.rank as int, dest as int) == old(
                net,
            ).queue(self.world.rank as int, dest as int).push(
                WireMsg::Count(data@.len() as u64),
            ).push(WireMsg::Payload(data)),
            forall|s: int, d: int|
                0 <= s < old(net).spec_size() && 0 <= d < old(net).spec_size() && !(s
                    == self.world.rank && d == dest) ==> #[trigger] final(net).queue(s, d) == old(
                    net,
                ).queue(s, d),
    {
        let num = data.len();
        self.blocking_send_vec(net, dest, data);
        if num > 0 {
            Some(SendGuard { dest, count: num })
        } else {
            None
        }
    }
}

/// Disagreement about a collective's channel tag: the offending rank and
/// the tag it used.  Fatal: a programming error, not a runtime condition
/// to recover from, so the caller aborts with this diagnostic.
#[derive(Clone, Copy, Debug, PartialEq, Eq, Structural)]
pub struct TagMismatch {
    pub rank: usize,
    pub tag: i32,
}

/// One handle per rank, rank `i` at index `i`, all of one communicator of
/// exactly this size.
pub open spec fn consistent_worlds<T>(worlds: Seq<MpiWorld<T>>) -> bool {
    forall|i: int|
        0 <= i < worlds.len() ==> (#[trigger] worlds[i]).world.rank == i && worlds[i].world.size
            == worlds.len()
}

/// Every rank entered the collective with the same channel tag.
pub open spec fn tags_agree<T>(worlds: Seq<MpiWorld<T>>) -> bool {
    forall|i: int| 0 <= i < worlds.len() ==> (#[trigger] worlds[i]).tag.0 == worlds[0].tag.0
}

/// Combined length of a list of rows.
pub open spec fn total_len<T>(rows: Seq<Seq<T>>) -> nat
    decreases rows.len(),
{
    if rows.len() == 0 {
        0
    } else {
        (total_len(rows.drop_last()) + rows.last().len()) as nat
    }
}

/// The flattened prefix grows by one row's length per step, never past the
/// combined length, which is the length of the full flattening.
pub proof fn lemma_total_len_take<T>(rows: Seq<Seq<T>>, i: int)
    requires
        0 <= i < rows.len(),
    ensures
        total_len(rows.take(i + 1)) == total_len(rows.take(i)) + rows[i].len(),
        total_len(rows.take(i)) <= total_len(rows),
        total_len(rows.take(i + 1)) <= total_len(rows),
        rows.take(i).flatten().len() == total_len(rows.take(i)),
        rows.take(i + 1).flatten().len() == total_len(rows.take(i + 1)),
    decreases rows.len() - i,
{
    if rows.len() > 0 {
        lemma_total_len_unfold(rows.take(i + 1));
        assert(rows.take(i + 1).drop_last() =~= rows.take(i));
        lemma_flatten_len(rows.take(i));
        lemma_flatten_len(rows.take(i + 1));
        if i + 1 < rows.len() {
            lemma_total_len_take(rows, i + 1);
        } else {
            assert(rows.take(i + 1) =~= rows);
        }
    }
}

/// The defining equation of `total_len`, restated for callers.
pub proof fn lemma_total_len_unfold<T>(rows: Seq<Seq<T>>)
    ensures
        rows.len() == 0 ==> total_len(rows) == 0,
        rows.len() > 0 ==> total_len(rows) == total_len(rows.drop_last()) + rows.last().len(),
    decreases rows.len(),
{
    if rows.len() > 0 {
        lemma_total_len_unfold(rows.drop_last());
    }
}

/// A flattening is as long as the combined length of its rows.
pub proof fn lemma_flatten_len<T>(rows: Seq<Seq<T>>)
    ensures
        rows.flatten().len() == total_len(rows),
    decreases rows.len(),
{
    lemma_total_len_unfold(rows);
    if rows.len() == 0 {
        assert(rows.flatten() =~= Seq::<T>::empty());
    } else {
        lemma_flatten_len(rows.drop_last());
        rows.drop_last().lemma_flatten_push(rows.last());
        assert(rows.drop_last().push(rows.last()) =~= rows);
    }
}

impl<T> MpiWorld<T> {
    /// Whether every rank's gathered value equals this rank's own, the
    /// comparison each rank runs after an all-gather of the values.
    pub fn all_ranks_have_same_value(values: &Vec<i32>) -> (r: bool)
        ensures
            r <==> forall|i: int| 0 <= i < values@.len() ==> #[trigger] values@[i] == values@[0],
    {
        let mut i: usize = 0;
        while i < values.len()
            invariant
                i <= values@.len(),
                forall|k: int| 0 <= k < i ==> #[trigger] values@[k] == values@[0],
            decreases values@.len() - i,
        {
            if values[i] != values[0] {
                return false;
            }
            i += 1;
        }
        true
    }

    /// Checks, before any collective, that every rank entered it with the
    /// same channel tag.  Collectives carry no tag of their own, so this
    /// explicit all-gather-and-compare is what keeps differently tagged
    /// channels from being mixed.  A mismatch reports the first offending
    /// rank and its tag, and the process aborts on it.
    pub fn verify_tag(worlds: &Vec<MpiWorld<T>>) -> (r: Result<(), TagMismatch>)
        ensures
            r is Ok <==> tags_agree(worlds@),
            r matches Err(m) ==> {
                &&& 0 < m.rank < worlds@.len()
                &&& worlds@[m.rank as int].tag.0 != worlds@[0].tag.0
                &&& m.tag == worlds@[m.rank as int].tag.0
                &&& forall|i: int| 0 <= i < m.rank ==> (#[trigger] worlds@[i]).tag.0 == worlds@[0].tag.0
            },
    {
        let mut i: usize = 0;
        while i < worlds.len()
            invariant
                i <= worlds@.len(),
                forall|k: int| 0 <= k < i ==> (#[trigger] worlds@[k]).tag.0 == worlds@[0].tag.0,
            decreases worlds@.len() - i,
        {
            if worlds[i].tag.0 != worlds[0].tag.0 {
                return Err(TagMismatch { rank: i, tag: worlds[i].tag.0 });
            }
            i += 1;
        }
        Ok(())
    }
}

/// Copies a buffer of plain fixed-layout elements.
pub(crate) fn copy_row<T: Copy>(row: &Vec<T>) -> (r: Vec<T>)
    ensures
        r@ == row@,
{
    let mut out: Vec<T> = Vec::new();
    let mut i: usize = 0;
    while i < row.len()
        invariant
            i <= row@.len(),
            out@ == row@.take(i as int),
        decreases row@.len() - i,
    {
        out.push(row[i]);
        proof {
            assert(out@ =~= row@.take(i + 1));
        }
        i += 1;
    }
    proof {
        assert(row@.take(row@.len() as int) =~= row@);
    }
    out
}

impl<T: Copy> MpiWorld<T> {
    /// Fixed-size all-gather.  Barrier-like: every rank contributes one
    /// value and every rank receives the full vector, ordered by rank; the
    /// model takes all contributions and returns all results in one call.
    /// On a tag mismatch nothing is transferred and the diagnostic names
    /// the offending rank and tag.
    pub fn all_gather(worlds: &Vec<MpiWorld<T>>, contributions: &Vec<T>) -> (r: Result<
        Vec<Vec<T>>,
        TagMismatch,
    >)
        requires
            consistent_worlds(worlds@),
            contributions@.len() == worlds@.len(),
        ensures
            r is Ok <==> tags_agree(worlds@),
            r matches Ok(res) ==> res@.len() == worlds@.len() && forall|i: int|
                0 <= i < res@.len() ==> (#[trigger] res@[i])@ == contributions@,
    {
        match Self::verify_tag(worlds) {
            Err(mismatch) => Err(mismatch),
            Ok(()) => {
                let mut results: Vec<Vec<T>> = Vec::new();
                let mut r: usize = 0;
                while r < worlds.len()
                    invariant
                        r <= worlds@.len(),
                        results@.len() == r,
                        forall|k: int| 0 <= k < r ==> (#[trigger] results@[k])@ == contributions@,
                    decreases worlds@.len() - r,
                {
                    results.push(copy_row(contributions));
                    r += 1;
                }
                Ok(results)
            },
        }
    }

    /// All-gather of equal-length vectors: every rank contributes one
    /// vector, every rank receives a per-rank mapping of all of them.
    pub fn all_gather_vec(worlds: &Vec<MpiWorld<T>>, contributions: &Vec<Vec<T>>) -> (r: Result<
        Vec<DataByRank<T>>,
        TagMismatch,
    >)
        requires
            consistent_worlds(worlds@),
            worlds@.len() > 0,
            contributions@.len() == worlds@.len(),
            forall|i: int|
                0 <= i < contributions@.len() ==> (#[trigger] contributions@[i])@.len()
                    == contributions@[0]@.len(),
        ensures
            r is Ok <==> tags_agree(worlds@),
            r matches Ok(res) ==> res@.len() == worlds@.len() && forall|k: int|
                0 <= k < res@.len() ==> {
                    &&& (#[trigger] res@[k]).wf(worlds@.len() as int)
                    &&& res@[k].rank == k
                    &&& forall|i: int|
                        0 <= i < worlds@.len() ==> res@[k].spec_get(i) == (
                        #[trigger] contributions@[i])@
                },
    {
        match Self::verify_tag(worlds) {
            Err(mismatch) => Err(mismatch),
            Ok(()) => {
                let size = worlds.len();
                let mut results: Vec<DataByRank<T>> = Vec::new();
                let mut r: usize = 0;
                while r < size
                    invariant
                        r <= size,
                        size == worlds@.len(),
                        contributions@.len() == size,
                        results@.len() == r,
                        forall|k: int|
                            0 <= k < r ==> {
                                &&& (#[trigger] results@[k]).wf(size as int)
                                &&& results@[k].rank == k
                                &&& forall|i: int|
                                    0 <= i < size ==> results@[k].spec_get(i) == (
                                    #[trigger] contributions@[i])@
                            },
                    decreases size - r,
                {
                    let mut data: DataByRank<T> = DataByRank::from_size_and_rank(size, r);
                    let mut i: usize = 0;
                    while i < size
                        invariant
                            i <= size,
                            r < size,
                            size == worlds@.len(),
                            contributions@.len() == size,
                            data.wf(size as int),
                            data.rank == r,
                            forall|k: int|
                                0 <= k < i ==> data.spec_get(k) == (
                                #[trigger] contributions@[k])@,
                        decreases size - i,
                    {
                        data.insert(i, copy_row(&contributions[i]));
                        i += 1;
                    }
                    results.push(data);
                    r += 1;
                }
                Ok(results)
            },
        }
    }

    /// All-gather with heterogeneous per-rank lengths: every rank receives
    /// the concatenation of all contributions in rank order, assembled
    /// with precomputed per-rank counts and prefix-sum displacements.
    pub fn all_gather_varcount(
        worlds: &Vec<MpiWorld<T>>,
        contributions: &Vec<Vec<T>>,
        counts: &Vec<usize>,
    ) -> (r: Result<Vec<Vec<T>>, TagMismatch>)
        requires
            consistent_worlds(worlds@),
            contributions@.len() == worlds@.len(),
            counts@.len() == worlds@.len(),
            forall|i: int|
                0 <= i < counts@.len() ==> counts@[i] == (#[trigger] contributions@[i])@.len(),
            total_len(contributions@.map_values(|v: Vec<T>| v@)) <= usize::MAX,
        ensures
            r is Ok <==> tags_agree(worlds@),
            r matches Ok(res) ==> res@.len() == worlds@.len() && forall|k: int|
                0 <= k < res@.len() ==> (#[trigger] res@[k])@ == contributions@.map_values(
                    |v: Vec<T>| v@,
                ).flatten(),
    {
        match Self::verify_tag(worlds) {
            Err(mismatch) => Err(mismatch),
            Ok(()) => {
                let ghost mapped = contributions@.map_values(|v: Vec<T>| v@);
                // prefix-sum displacements: where each rank's data begins
                let mut displacements: Vec<usize> = Vec::new();
                let mut acc: usize = 0;
                let mut i: usize = 0;
                proof {
                    lemma_total_len_unfold(mapped.take(0));
                    assert(mapped.take(0) =~= Seq::<Seq<T>>::empty());
                }
                while i < counts.len()
                    invariant
                        i <= counts@.len(),
                        counts@.len() == contributions@.len(),
                        mapped == contributions@.map_values(|v: Vec<T>| v@),
                        forall|k: int|
                            0 <= k < counts@.len() ==> counts@[k] == (
                            #[trigger] contributions@[k])@.len(),
                        total_len(mapped) <= usize::MAX,
                        acc == total_len(mapped.take(i as int)),
                        displacements@.len() == i,
                        forall|k: int|
                            0 <= k < i ==> #[trigger] displacements@[k] == total_len(
                                mapped.take(k),
                            ),
                    decreases counts@.len() - i,
                {
                    proof {
                        lemma_total_len_take(mapped, i as int);
                    }
                    displacements.push(acc);
                    acc = acc + counts[i];
                    i += 1;
                }
                // assemble the full buffer once, in rank order
                let mut flat: Vec<T> = Vec::new();
                let mut r: usize = 0;
                proof {
                    assert(mapped.take(0) =~= Seq::<Seq<T>>::empty());
                    assert(Seq::<Seq<T>>::empty().flatten() =~= Seq::<T>::empty());
                }
                while r < contributions.len()
                    invariant
                        r <= contributions@.len(),
                        mapped == contributions@.map_values(|v: Vec<T>| v@),
                        displacements@.len() == contributions@.len(),
                        forall|k: int|
                            0 <= k < contributions@.len() ==> #[trigger] displacements@[k]
                                == total_len(mapped.take(k)),
                        flat@ == mapped.take(r as int).flatten(),
                    decreases contributions@.len() - r,
                {
                    proof {
                        // each rank's data lands at its displacement
                        lemma_total_len_take(mapped, r as int);
                        assert(flat@.len() == displacements@[r as int]);
                    }
                    let row = &contributions[r];
                    let mut c: usize = 0;
                    while c < row.len()
                        invariant
                            c <= row@.len(),
                            row@ == contributions@[r as int]@,
                            r < contributions@.len(),
                            mapped == contributions@.map_values(|v: Vec<T>| v@),
                            flat@ == mapped.take(r as int).flatten() + row@.take(c as int),
                        decreases row@.len() - c,
                    {
                        flat.push(row[c]);
                        proof {
                            assert(row@.take(c + 1) =~= row@.take(c as int).push(row@[c as int]));
                            assert(flat@ =~= mapped.take(r as int).flatten() + row@.take(c + 1));
                        }
                        c += 1;
                    }
                    proof {
                        assert(row@.take(row@.len() as int) =~= row@);
                        assert(mapped.take(r + 1) =~= mapped.take(r as int).push(row@));
                        mapped.take(r as int).lemma_flatten_push(row@);
                    }
                    r += 1;
                }
                proof {
                    assert(mapped.take(mapped.len() as int) =~= mapped);
                }
                let mut results: Vec<Vec<T>> = Vec::new();
                let mut k: usize = 0;
                while k < worlds.len()
                    invariant
                        k <= worlds@.len(),
                        results@.len() == k,
                        flat@ == mapped.flatten(),
                        mapped == contributions@.map_values(|v: Vec<T>| v@),
                        forall|j: int| 0 <= j < k ==> (#[trigger] results@[j])@ == mapped.flatten(),
                    decreases worlds@.len() - k,
                {
                    results.push(copy_row(&flat));
                    k += 1;
                }
                Ok(results)
            },
        }
    }
}

} // verus!
