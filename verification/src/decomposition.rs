//! The decomposition epoch: key building, segment exchange, cutoff
//! computation, routing, and the migration that realizes ownership
//! transfer.
//!
//! Transitions are strictly sequential on every rank each epoch: records
//! are built and sorted, segments are built and exchanged, every rank
//! derives the same cutoffs from the same exchanged data, each local item
//! is routed, and the exchange moves a per-rank item count followed by the
//! payloads, which the receiving rank materializes as newly owned items.
//! Once materialized on the receiver, an item is never referenced by the
//! sender again: its record leaves the sender's local set in the same
//! epoch.

use vstd::prelude::*;

use crate::communication::copy_row;
use crate::communication::lemma_total_len_unfold;
use crate::communication::total_len;
use crate::communication::MpiWorld;
use crate::communication::Network;
use crate::communication::SystemCommunicator;
use crate::communication::Tag;
use crate::cutoffs::compute_cutoffs;
use crate::cutoffs::num_cutoffs_at_most;
use crate::cutoffs::sort_and_merge_segments;
use crate::cutoffs::sorted_keys;
use crate::cutoffs::target_rank;
use crate::data_by_rank::DataByRank;
use crate::exchange::consistent_comms;
use crate::exchange::exchange_all;
use crate::exchange::ExchangeCommunicator;
use crate::extents::Extents;
use crate::extents::Position;
use crate::peano_hilbert::key_of;
use crate::peano_hilbert::PeanoHilbertKey;
use crate::segment::get_segments;
use crate::segment::keys_in_domain;
use crate::segment::lemma_sum_counts_add;
use crate::segment::lemma_sum_counts_unfold;
use crate::segment::sorted;
use crate::segment::sum_counts;
use crate::segment::ParticleData;
use crate::segment::Segment;

verus! {

/// Velocity of one item, in fixed-point integer coordinates.
#[derive(Clone, Copy, Debug, PartialEq, Eq, Structural)]
pub struct Velocity {
    pub x: i64,
    pub y: i64,
}

/// Mass of one item, in fixed-point units.
#[derive(Clone, Copy, Debug, PartialEq, Eq, Structural)]
pub struct Mass(pub i64);

/// One item of the local set: an owned handle plus its payload.
#[derive(Clone, Copy, Debug, PartialEq, Eq, Structural)]
pub struct LocalParticle {
    pub entity: u64,
    pub pos: Position,
    pub vel: Velocity,
    pub mass: Mass,
}

/// The payload that migrates between ranks: plain fixed-layout data, no
/// handle — the receiver allocates a new one when it materializes the
/// item.
#[derive(Clone, Copy, Debug, PartialEq, Eq, Structural)]
pub struct ParticleExchangeData {
    pub pos: Position,
    pub vel: Velocity,
    pub mass: Mass,
}

/// The sorted-key record an item contributes to the histogram.
pub open spec fn record_of(extents: Extents, p: LocalParticle) -> ParticleData {
    ParticleData { key: PeanoHilbertKey(key_of(extents, p.pos) as u64), entity: p.entity }
}

/// The payload an item contributes to the migration.
pub open spec fn exchange_of(p: LocalParticle) -> ParticleExchangeData {
    ParticleExchangeData { pos: p.pos, vel: p.vel, mass: p.mass }
}

/// The rank that owns `pos` under the given cutoffs.
pub open spec fn target_of(extents: Extents, cutoffs: Seq<PeanoHilbertKey>, pos: Position) -> int {
    num_cutoffs_at_most(cutoffs, key_of(extents, pos) as int) as int
}

/// Every item's position lies inside the global extents.
pub open spec fn all_contained(extents: Extents, locals: Seq<LocalParticle>) -> bool {
    forall|i: int| 0 <= i < locals.len() ==> extents.spec_contains((#[trigger] locals[i]).pos)
}

/// Where the record sort puts a key: after every record whose key is
/// strictly smaller, before any equal one.
pub open spec fn record_insert_position(records: Seq<ParticleData>, key: u64) -> int {
    records.filter(|r: ParticleData| r.key.0 < key).len() as int
}

/// The sorted key records of a rank's items, as a function of the items:
/// each item's record is inserted in key order, one item at a time.
pub open spec fn sorted_records(extents: Extents, locals: Seq<LocalParticle>) -> Seq<ParticleData>
    decreases locals.len(),
{
    if locals.len() == 0 {
        Seq::empty()
    } else {
        let prev = sorted_records(extents, locals.drop_last());
        let record = record_of(extents, locals.last());
        prev.insert(record_insert_position(prev, record.key.0), record)
    }
}

/// The defining equation of `sorted_records`, restated for callers.
proof fn lemma_sorted_records_unfold(extents: Extents, locals: Seq<LocalParticle>)
    ensures
        locals.len() == 0 ==> sorted_records(extents, locals) =~= Seq::<ParticleData>::empty(),
        locals.len() > 0 ==> sorted_records(extents, locals) == ({
            let prev = sorted_records(extents, locals.drop_last());
            let record = record_of(extents, locals.last());
            prev.insert(record_insert_position(prev, record.key.0), record)
        }),
    decreases locals.len(),
{
    if locals.len() > 0 {
        lemma_sorted_records_unfold(extents, locals.drop_last());
    }
}

/// For sorted records split at `r` between keys strictly below `key` and
/// keys at or above it, the insertion position is exactly `r`.
proof fn lemma_record_position_by_bounds(records: Seq<ParticleData>, key: u64, r: int)
    requires
        0 <= r <= records.len(),
        forall|i: int| 0 <= i < r ==> (#[trigger] records[i]).key.0 < key,
        forall|i: int| r <= i < records.len() ==> (#[trigger] records[i]).key.0 >= key,
    ensures
        record_insert_position(records, key) == r,
{
    broadcast use Seq::filter_distributes_over_add;

    let pred = |p: ParticleData| p.key.0 < key;
    let low = records.take(r);
    let high = records.skip(r);
    assert(records =~= low + high);
    crate::segment::lemma_filter_all_true(low, pred);
    high.lemma_all_neg_filter_empty(pred);
    assert(records.filter(pred).len() == low.filter(pred).len() + high.filter(pred).len());
}

/// Builds this rank's key records: one per local item, sorted by key
/// ascending.  Rebuilt fresh each epoch and destroyed once cutoffs are
/// applied.  The result is exactly `sorted_records`, so identical items
/// always yield the identical record list.
pub fn build_records(extents: &Extents, locals: &Vec<LocalParticle>) -> (records: Vec<ParticleData>)
    requires
        extents.wf(),
        all_contained(*extents, locals@),
    ensures
        records@ == sorted_records(*extents, locals@),
        sorted(records@),
        keys_in_domain(records@),
        records@.len() == locals@.len(),
        records@.to_multiset() == locals@.map_values(
            |p: LocalParticle| record_of(*extents, p),
        ).to_multiset(),
{
    let ghost mapped = locals@.map_values(|p: LocalParticle| record_of(*extents, p));
    let mut records: Vec<ParticleData> = Vec::new();
    let mut i: usize = 0;
    proof {
        records@.to_multiset_ensures();
        mapped.take(0).to_multiset_ensures();
        assert(records@.to_multiset() =~= mapped.take(0).to_multiset());
        lemma_sorted_records_unfold(*extents, locals@.take(0));
        assert(locals@.take(0) =~= Seq::<LocalParticle>::empty());
        assert(records@ =~= sorted_records(*extents, locals@.take(0)));
    }
    while i < locals.len()
        invariant
            i <= locals@.len(),
            extents.wf(),
            all_contained(*extents, locals@),
            mapped == locals@.map_values(|p: LocalParticle| record_of(*extents, p)),
            records@.len() == i,
            sorted(records@),
            keys_in_domain(records@),
            records@ == sorted_records(*extents, locals@.take(i as int)),
            records@.to_multiset() == mapped.take(i as int).to_multiset(),
        decreases locals@.len() - i,
    {
        let p = locals[i];
        let key = PeanoHilbertKey::new(extents, &p.pos);
        let record = ParticleData { key, entity: p.entity };
        let pos = key_lower_bound(&records, key.0);
        let ghost before = records@;
        records.insert(pos, record);
        proof {
            assert(record == mapped[i as int]);
            // the chosen slot is the record sort's insertion position
            lemma_record_position_by_bounds(before, key.0, pos as int);
            lemma_sorted_records_unfold(*extents, locals@.take(i + 1));
            assert(locals@.take(i + 1).drop_last() =~= locals@.take(i as int));
            assert(locals@.take(i + 1).last() == locals@[i as int]);
            assert(record == record_of(*extents, locals@[i as int]));
            assert(records@ == sorted_records(*extents, locals@.take(i + 1)));
            assert forall|a: int, b: int|
                0 <= a <= b < records@.len() implies (#[trigger] records@[a]).key.0 <= (
            #[trigger] records@[b]).key.0 by {
                if a < pos && b >= pos && b > pos {
                    assert(records@[b] == before[b - 1]);
                }
            }
            assert(records@ =~= before.take(pos as int).push(record) + before.skip(pos as int));
            assert(before =~= before.take(pos as int) + before.skip(pos as int));
            vstd::seq_lib::lemma_multiset_commutative(
                before.take(pos as int).push(record),
                before.skip(pos as int),
            );
            vstd::seq_lib::lemma_multiset_commutative(
                before.take(pos as int),
                before.skip(pos as int),
            );
            before.take(pos as int).to_multiset_ensures();
            mapped.take(i as int).to_multiset_ensures();
            assert(mapped.take(i + 1) =~= mapped.take(i as int).push(record));
            assert(records@.to_multiset() =~= mapped.take(i + 1).to_multiset());
        }
        i += 1;
    }
    proof {
        assert(mapped.take(mapped.len() as int) =~= mapped);
        assert(locals@.take(locals@.len() as int) =~= locals@);
    }
    records
}

/// Whether an item routes to rank `d` under the given cutoffs.
pub open spec fn route_pred(extents: Extents, cutoffs: Seq<PeanoHilbertKey>, d: int) -> spec_fn(
    LocalParticle,
) -> bool {
    |p: LocalParticle| target_of(extents, cutoffs, p.pos) == d
}

/// The migration payload of an item.
pub open spec fn exchange_map() -> spec_fn(LocalParticle) -> ParticleExchangeData {
    |p: LocalParticle| exchange_of(p)
}

/// The local items that route to rank `d`, in their original order.
pub open spec fn routed_to(
    extents: Extents,
    cutoffs: Seq<PeanoHilbertKey>,
    locals: Seq<LocalParticle>,
    d: int,
) -> Seq<LocalParticle> {
    locals.filter(route_pred(extents, cutoffs, d))
}

/// The payloads staged for rank `d`, in their original order.
pub open spec fn outgoing_view(
    extents: Extents,
    cutoffs: Seq<PeanoHilbertKey>,
    locals: Seq<LocalParticle>,
    d: int,
) -> Seq<ParticleExchangeData> {
    routed_to(extents, cutoffs, locals, d).map_values(exchange_map())
}

/// Appending one item extends exactly the staging buffer of its target.
proof fn lemma_routed_push(
    extents: Extents,
    cutoffs: Seq<PeanoHilbertKey>,
    locals: Seq<LocalParticle>,
    p: LocalParticle,
    d: int,
)
    ensures
        target_of(extents, cutoffs, p.pos) == d ==> routed_to(extents, cutoffs, locals.push(p), d)
            == routed_to(extents, cutoffs, locals, d).push(p),
        target_of(extents, cutoffs, p.pos) != d ==> routed_to(extents, cutoffs, locals.push(p), d)
            == routed_to(extents, cutoffs, locals, d),
        target_of(extents, cutoffs, p.pos) == d ==> outgoing_view(
            extents,
            cutoffs,
            locals.push(p),
            d,
        ) == outgoing_view(extents, cutoffs, locals, d).push(exchange_of(p)),
        target_of(extents, cutoffs, p.pos) != d ==> outgoing_view(
            extents,
            cutoffs,
            locals.push(p),
            d,
        ) == outgoing_view(extents, cutoffs, locals, d),
{
    locals.lemma_filter_push(p, route_pred(extents, cutoffs, d));
    if target_of(extents, cutoffs, p.pos) == d {
        routed_to(extents, cutoffs, locals, d).lemma_push_map_commute(exchange_map(), p);
        assert(exchange_map()(p) == exchange_of(p));
    }
}

/// Assigns each local item its destination: items staying on `rank` are
/// kept, in order; every other item is removed locally and its payload
/// staged in the outgoing buffer of its destination.
pub fn route_particles(
    extents: &Extents,
    cutoffs: &Vec<PeanoHilbertKey>,
    locals: Vec<LocalParticle>,
    rank: usize,
    size: usize,
) -> (r: (Vec<LocalParticle>, DataByRank<ParticleExchangeData>))
    requires
        extents.wf(),
        all_contained(*extents, locals@),
        sorted_keys(cutoffs@),
        cutoffs@.len() < size,
        rank < size,
    ensures
        r.0@ == routed_to(*extents, cutoffs@, locals@, rank as int),
        r.1.wf(size as int),
        r.1.rank == rank,
        forall|d: int|
            0 <= d < size && d != rank ==> (#[trigger] r.1.spec_get(d)) == outgoing_view(
                *extents,
                cutoffs@,
                locals@,
                d,
            ),
        r.1.spec_get(rank as int) == Seq::<ParticleExchangeData>::empty(),
{
    let mut staying: Vec<LocalParticle> = Vec::new();
    let mut outgoing: DataByRank<ParticleExchangeData> =
        DataByRank::from_size_and_rank(size, rank);
    let mut i: usize = 0;
    proof {
        assert(locals@.take(0) =~= Seq::<LocalParticle>::empty());
        assert(Seq::<LocalParticle>::empty().filter(route_pred(*extents, cutoffs@, rank as int))
            =~= Seq::<LocalParticle>::empty()) by {
            Seq::<LocalParticle>::empty().lemma_all_neg_filter_empty(
                route_pred(*extents, cutoffs@, rank as int),
            );
        }
        assert forall|d: int| 0 <= d < size implies outgoing_view(
            *extents,
            cutoffs@,
            locals@.take(0),
            d,
        ) =~= Seq::<ParticleExchangeData>::empty() by {
            Seq::<LocalParticle>::empty().lemma_all_neg_filter_empty(
                route_pred(*extents, cutoffs@, d),
            );
        }
    }
    while i < locals.len()
        invariant
            i <= locals@.len(),
            extents.wf(),
            all_contained(*extents, locals@),
            sorted_keys(cutoffs@),
            cutoffs@.len() < size,
            rank < size,
            outgoing.wf(size as int),
            outgoing.rank == rank,
            staying@ == routed_to(*extents, cutoffs@, locals@.take(i as int), rank as int),
            forall|d: int|
                0 <= d < size && d != rank ==> (#[trigger] outgoing.spec_get(d)) == outgoing_view(
                    *extents,
                    cutoffs@,
                    locals@.take(i as int),
                    d,
                ),
            outgoing.spec_get(rank as int) == Seq::<ParticleExchangeData>::empty(),
        decreases locals@.len() - i,
    {
        let p = locals[i];
        let key = PeanoHilbertKey::new(extents, &p.pos);
        let target = target_rank(cutoffs, key);
        let ghost prefix = locals@.take(i as int);
        let ghost outgoing_before = outgoing;
        proof {
            assert(locals@.take(i + 1) =~= prefix.push(p));
            assert(target == target_of(*extents, cutoffs@, p.pos));
        }
        if target == rank {
            staying.push(p);
        } else {
            outgoing.push(target, exchange_of_particle(&p));
        }
        proof {
            assert forall|d: int|
                0 <= d < size && d != rank implies (#[trigger] outgoing.spec_get(d))
                == outgoing_view(*extents, cutoffs@, locals@.take(i + 1), d) by {
                lemma_routed_push(*extents, cutoffs@, prefix, p, d);
                if d != target {
                    assert(outgoing.spec_get(d) == outgoing_before.spec_get(d));
                }
            }
            lemma_routed_push(*extents, cutoffs@, prefix, p, rank as int);
        }
        i += 1;
    }
    proof {
        assert(locals@.take(locals@.len() as int) =~= locals@);
    }
    (staying, outgoing)
}

/// The migration payload of one item.
fn exchange_of_particle(p: &LocalParticle) -> (r: ParticleExchangeData)
    ensures
        r == exchange_of(*p),
{
    ParticleExchangeData { pos: p.pos, vel: p.vel, mass: p.mass }
}

/// The payloads a rank drains from its incoming buffers, source ranks in
/// ascending order, skipping its own slot.
pub open spec fn drained(
    incoming: DataByRank<ParticleExchangeData>,
    upto: int,
) -> Seq<ParticleExchangeData>
    decreases upto,
{
    if upto <= 0 {
        Seq::empty()
    } else {
        drained(incoming, upto - 1) + (if upto - 1 == incoming.rank {
            Seq::empty()
        } else {
            incoming.spec_get(upto - 1)
        })
    }
}

/// The defining equation of `drained`, restated for callers.
pub proof fn lemma_drained_unfold(
    incoming: DataByRank<ParticleExchangeData>,
    upto: int,
)
    ensures
        upto <= 0 ==> drained(incoming, upto) =~= Seq::<ParticleExchangeData>::empty(),
        upto > 0 ==> drained(incoming, upto) == drained(incoming, upto - 1) + (if upto - 1
            == incoming.rank {
            Seq::<ParticleExchangeData>::empty()
        } else {
            incoming.spec_get(upto - 1)
        }),
    decreases upto,
{
    if upto > 0 {
        lemma_drained_unfold(incoming, upto - 1);
    }
}

/// Draining more source ranks never shortens the drained payload.
proof fn lemma_drained_le(
    incoming: DataByRank<ParticleExchangeData>,
    j: int,
    size: int,
)
    requires
        0 <= j <= size,
    ensures
        drained(incoming, j).len() <= drained(incoming, size).len(),
    decreases size - j,
{
    if j < size {
        lemma_drained_unfold(incoming, j + 1);
        lemma_drained_le(incoming, j + 1, size);
    }
}

/// The items a receiving rank materializes from the payloads `ms`: each
/// becomes a newly owned local item with a fresh handle, allocated
/// sequentially from `base`.
pub open spec fn materialized(base: u64, ms: Seq<ParticleExchangeData>) -> Seq<LocalParticle> {
    Seq::new(
        ms.len(),
        |j: int|
            LocalParticle {
                entity: (base + j) as u64,
                pos: ms[j].pos,
                vel: ms[j].vel,
                mass: ms[j].mass,
            },
    )
}

/// Materializes the received payloads as newly owned local items.  The
/// per-source counts arrived in a separate exchange, so the receiver knows
/// up front how many new handles to allocate.
pub fn materialize_incoming(
    base: u64,
    incoming: &DataByRank<ParticleExchangeData>,
    counts: &DataByRank<usize>,
    size: usize,
) -> (r: Vec<LocalParticle>)
    requires
        incoming.wf(size as int),
        counts.wf(size as int),
        counts.rank == incoming.rank,
        forall|a: int|
            0 <= a < size && a != incoming.rank ==> (#[trigger] counts.spec_get(a)).len() == 1
                && counts.spec_get(a)[0] == incoming.spec_get(a).len(),
        drained(*incoming, size as int).len() <= usize::MAX,
        base + drained(*incoming, size as int).len() <= u64::MAX,
    ensures
        r@ == materialized(base, drained(*incoming, size as int)),
{
    // the announced counts say how many new handles this rank allocates
    let mut expected: usize = 0;
    let own = incoming.rank;
    let mut a: usize = 0;
    proof {
        lemma_drained_unfold(*incoming, 0);
        lemma_drained_le(*incoming, 0, size as int);
    }
    while a < size
        invariant
            a <= size,
            own == incoming.rank,
            incoming.wf(size as int),
            counts.wf(size as int),
            counts.rank == incoming.rank,
            forall|k: int|
                0 <= k < size && k != incoming.rank ==> (#[trigger] counts.spec_get(k)).len() == 1
                    && counts.spec_get(k)[0] == incoming.spec_get(k).len(),
            drained(*incoming, size as int).len() <= usize::MAX,
            base + drained(*incoming, size as int).len() <= u64::MAX,
            expected == drained(*incoming, a as int).len(),
        decreases size - a,
    {
        proof {
            lemma_drained_unfold(*incoming, a + 1);
            lemma_drained_le(*incoming, a + 1, size as int);
        }
        if a != own {
            let row_counts = counts.get(a);
            expected = expected + row_counts[0];
        }
        a += 1;
    }
    let mut r: Vec<LocalParticle> = Vec::with_capacity(expected);
    let mut src: usize = 0;
    proof {
        lemma_drained_unfold(*incoming, 0);
        assert(r@ =~= materialized(base, drained(*incoming, 0)));
    }
    while src < size
        invariant
            src <= size,
            own == incoming.rank,
            incoming.wf(size as int),
            base + drained(*incoming, size as int).len() <= u64::MAX,
            r@ == materialized(base, drained(*incoming, src as int)),
        decreases size - src,
    {
        proof {
            lemma_drained_unfold(*incoming, src + 1);
            lemma_drained_le(*incoming, src + 1, size as int);
        }
        if src != own {
            let row = incoming.get(src);
            let ghost sofar = drained(*incoming, src as int);
            let mut c: usize = 0;
            while c < row.len()
                invariant
                    c <= row@.len(),
                    own == incoming.rank,
                    incoming.wf(size as int),
                    src < size,
                    src != own,
                    row@ == incoming.spec_get(src as int),
                    sofar == drained(*incoming, src as int),
                    base + drained(*incoming, size as int).len() <= u64::MAX,
                    sofar.len() + row@.len() <= drained(*incoming, size as int).len(),
                    r@ == materialized(base, sofar + row@.take(c as int)),
                decreases row@.len() - c,
            {
                let m = row[c];
                proof {
                    assert(r@.len() == sofar.len() + c);
                }
                let entity: u64 = base + (r.len() as u64);
                r.push(LocalParticle { entity, pos: m.pos, vel: m.vel, mass: m.mass });
                proof {
                    assert(r@ =~= materialized(base, sofar + row@.take(c + 1)));
                }
                c += 1;
            }
            proof {
                assert(sofar + row@.take(row@.len() as int) =~= drained(*incoming, src + 1));
            }
        } else {
            proof {
                assert(drained(*incoming, src + 1) =~= drained(*incoming, src as int));
            }
        }
        src += 1;
    }
    r
}

/// Combined size of the buffers routed to ranks `0 .. upto`.
pub open spec fn sum_routed(
    extents: Extents,
    cutoffs: Seq<PeanoHilbertKey>,
    locals: Seq<LocalParticle>,
    upto: int,
) -> int
    decreases upto,
{
    if upto <= 0 {
        0
    } else {
        sum_routed(extents, cutoffs, locals, upto - 1) + routed_to(
            extents,
            cutoffs,
            locals,
            upto - 1,
        ).len()
    }
}

/// The defining equation of `sum_routed`, restated for callers.
proof fn lemma_sum_routed_unfold(
    extents: Extents,
    cutoffs: Seq<PeanoHilbertKey>,
    locals: Seq<LocalParticle>,
    upto: int,
)
    ensures
        upto <= 0 ==> sum_routed(extents, cutoffs, locals, upto) == 0,
        upto > 0 ==> sum_routed(extents, cutoffs, locals, upto) == sum_routed(
            extents,
            cutoffs,
            locals,
            upto - 1,
        ) + routed_to(extents, cutoffs, locals, upto - 1).len(),
    decreases upto,
{
    if upto > 0 {
        lemma_sum_routed_unfold(extents, cutoffs, locals, upto - 1);
    }
}

/// An empty local set routes nothing anywhere.
proof fn lemma_sum_routed_empty(extents: Extents, cutoffs: Seq<PeanoHilbertKey>, upto: int)
    ensures
        sum_routed(extents, cutoffs, Seq::<LocalParticle>::empty(), upto) == 0,
    decreases upto,
{
    broadcast use Seq::lemma_filter_len;

    lemma_sum_routed_unfold(extents, cutoffs, Seq::<LocalParticle>::empty(), upto);
    if upto > 0 {
        lemma_sum_routed_empty(extents, cutoffs, upto - 1);
    }
}

/// Appending one item grows exactly one of the routed buffers: the one of
/// its target, when that target lies below `upto`.
proof fn lemma_sum_routed_push(
    extents: Extents,
    cutoffs: Seq<PeanoHilbertKey>,
    locals: Seq<LocalParticle>,
    p: LocalParticle,
    upto: int,
)
    ensures
        sum_routed(extents, cutoffs, locals.push(p), upto) == sum_routed(
            extents,
            cutoffs,
            locals,
            upto,
        ) + if 0 <= target_of(extents, cutoffs, p.pos) < upto {
            1int
        } else {
            0int
        },
    decreases upto,
{
    lemma_sum_routed_unfold(extents, cutoffs, locals.push(p), upto);
    lemma_sum_routed_unfold(extents, cutoffs, locals, upto);
    if upto > 0 {
        lemma_sum_routed_push(extents, cutoffs, locals, p, upto - 1);
        lemma_routed_push(extents, cutoffs, locals, p, upto - 1);
    }
}

/// Law: routing partitions the local set.  With fewer cutoffs than ranks
/// every item's target lies in `[0, size)`, and summing the buffers routed
/// to each rank gives back exactly the local count: no item is dropped and
/// none is staged twice.
pub proof fn lemma_routing_is_a_partition(
    extents: Extents,
    cutoffs: Seq<PeanoHilbertKey>,
    locals: Seq<LocalParticle>,
    size: int,
)
    requires
        cutoffs.len() < size,
    ensures
        sum_routed(extents, cutoffs, locals, size) == locals.len(),
    decreases locals.len(),
{
    broadcast use Seq::lemma_filter_len;

    if locals.len() == 0 {
        assert(locals =~= Seq::<LocalParticle>::empty());
        lemma_sum_routed_empty(extents, cutoffs, size);
    } else {
        let prefix = locals.drop_last();
        let p = locals.last();
        lemma_routing_is_a_partition(extents, cutoffs, prefix, size);
        assert(prefix.push(p) =~= locals);
        lemma_sum_routed_push(extents, cutoffs, prefix, p, size);
        assert(0 <= target_of(extents, cutoffs, p.pos) < size);
    }
}

/// The payloads rank `dest` receives across the exchange: every other
/// rank's staged buffer for `dest`, source ranks in ascending order.
pub open spec fn incoming_concat(
    extents: Extents,
    cutoffs: Seq<PeanoHilbertKey>,
    views: Seq<Seq<LocalParticle>>,
    dest: int,
    upto: int,
) -> Seq<ParticleExchangeData>
    decreases upto,
{
    if upto <= 0 {
        Seq::empty()
    } else {
        incoming_concat(extents, cutoffs, views, dest, upto - 1) + (if upto - 1 == dest {
            Seq::empty()
        } else {
            outgoing_view(extents, cutoffs, views[upto - 1], dest)
        })
    }
}

/// A rank's drained buffers are exactly the payloads routed to it, when
/// each incoming slot holds the matching sender's staged buffer.
proof fn lemma_incoming_matches(
    extents: Extents,
    cutoffs: Seq<PeanoHilbertKey>,
    views: Seq<Seq<LocalParticle>>,
    incoming: DataByRank<ParticleExchangeData>,
    dest: int,
    upto: int,
)
    requires
        incoming.rank == dest,
        upto <= views.len(),
        forall|a: int|
            0 <= a < views.len() && a != dest ==> (#[trigger] incoming.spec_get(a))
                == outgoing_view(extents, cutoffs, views[a], dest),
    ensures
        drained(incoming, upto) == incoming_concat(extents, cutoffs, views, dest, upto),
    decreases upto,
{
    lemma_drained_unfold(incoming, upto);
    if upto > 0 {
        lemma_incoming_matches(extents, cutoffs, views, incoming, dest, upto - 1);
    }
}

/// Every payload routed to `dest` indeed targets `dest`, and no rank
/// receives more payloads than there are items in total.
proof fn lemma_incoming_targets(
    extents: Extents,
    cutoffs: Seq<PeanoHilbertKey>,
    views: Seq<Seq<LocalParticle>>,
    dest: int,
    upto: int,
)
    requires
        0 <= upto <= views.len(),
    ensures
        ({
            let ms = incoming_concat(extents, cutoffs, views, dest, upto);
            &&& ms.len() <= total_len(views.take(upto))
            &&& forall|j: int|
                0 <= j < ms.len() ==> target_of(extents, cutoffs, (#[trigger] ms[j]).pos) == dest
        }),
    decreases upto,
{
    broadcast use Seq::lemma_filter_len;

    if upto > 0 {
        lemma_incoming_targets(extents, cutoffs, views, dest, upto - 1);
        lemma_total_len_unfold(views.take(upto));
        assert(views.take(upto).drop_last() =~= views.take(upto - 1));
        let ms = incoming_concat(extents, cutoffs, views, dest, upto);
        let prev = incoming_concat(extents, cutoffs, views, dest, upto - 1);
        if upto - 1 != dest {
            let row = outgoing_view(extents, cutoffs, views[upto - 1], dest);
            assert forall|j: int| 0 <= j < row.len() implies target_of(
                extents,
                cutoffs,
                (#[trigger] row[j]).pos,
            ) == dest by {
                views[upto - 1].lemma_filter_pred(route_pred(extents, cutoffs, dest), j);
                let q = routed_to(extents, cutoffs, views[upto - 1], dest)[j];
                assert(row[j] == exchange_map()(q));
            }
        }
    } else {
        assert(views.take(0) =~= Seq::<Seq<LocalParticle>>::empty());
        lemma_total_len_unfold(views.take(0));
    }
}

/// Total record count across every rank's segment list.
pub open spec fn sum_counts_rows(lists: Seq<Seq<Segment>>) -> nat
    decreases lists.len(),
{
    if lists.len() == 0 {
        0
    } else {
        (sum_counts_rows(lists.drop_last()) + sum_counts(lists.last())) as nat
    }
}

/// Flattening the per-rank lists keeps the total record count.
proof fn lemma_sum_counts_flatten(lists: Seq<Seq<Segment>>)
    ensures
        sum_counts(lists.flatten()) == sum_counts_rows(lists),
    decreases lists.len(),
{
    if lists.len() == 0 {
        assert(lists.flatten() =~= Seq::<Segment>::empty());
        lemma_sum_counts_unfold(lists.flatten());
    } else {
        lemma_sum_counts_flatten(lists.drop_last());
        lists.drop_last().lemma_flatten_push(lists.last());
        assert(lists.drop_last().push(lists.last()) =~= lists);
        lemma_sum_counts_add(lists.drop_last().flatten(), lists.last());
    }
}

/// When every rank's segments count exactly its items, the flattened
/// total equals the total item count.
proof fn lemma_rows_total(
    lists: Seq<Seq<Segment>>,
    views: Seq<Seq<LocalParticle>>,
)
    requires
        lists.len() == views.len(),
        forall|a: int|
            0 <= a < lists.len() ==> sum_counts(#[trigger] lists[a]) == views[a].len(),
    ensures
        sum_counts_rows(lists) == total_len(views),
    decreases lists.len(),
{
    lemma_total_len_unfold(views);
    if lists.len() > 0 {
        lemma_rows_total(lists.drop_last(), views.drop_last());
    }
}

/// Builds one exchange coordinator per rank for a fresh channel.
fn build_comms<T>(size: usize, tag: Tag) -> (r: Vec<
    ExchangeCommunicator<T>,
>)
    ensures
        r@.len() == size,
        consistent_comms(r@),
{
    let mut comms: Vec<ExchangeCommunicator<T>> = Vec::new();
    let mut a: usize = 0;
    while a < size
        invariant
            a <= size,
            comms@.len() == a,
            forall|k: int|
                0 <= k < a ==> (#[trigger] comms@[k]).world.world == (
                SystemCommunicator { rank: k as usize, size }),
        decreases size - a,
    {
        let world = MpiWorld::new(
            SystemCommunicator { rank: a, size },
            tag,
        );
        comms.push(ExchangeCommunicator::from(world));
        a += 1;
    }
    comms
}

/// The defining equation of `incoming_concat`, restated for callers.
proof fn lemma_incoming_concat_unfold(
    extents: Extents,
    cutoffs: Seq<PeanoHilbertKey>,
    views: Seq<Seq<LocalParticle>>,
    dest: int,
    upto: int,
)
    ensures
        upto <= 0 ==> incoming_concat(extents, cutoffs, views, dest, upto) =~= Seq::<
            ParticleExchangeData,
        >::empty(),
        upto > 0 ==> incoming_concat(extents, cutoffs, views, dest, upto) == incoming_concat(
            extents,
            cutoffs,
            views,
            dest,
            upto - 1,
        ) + (if upto - 1 == dest {
            Seq::<ParticleExchangeData>::empty()
        } else {
            outgoing_view(extents, cutoffs, views[upto - 1], dest)
        }),
    decreases upto,
{
    if upto > 0 {
        lemma_incoming_concat_unfold(extents, cutoffs, views, dest, upto - 1);
    }
}

/// The merged global histogram of one epoch, as a function of the items:
/// every rank's segment list over its sorted records, flattened in rank
/// order and stably sorted by start key.
pub open spec fn epoch_merged(
    extents: Extents,
    views: Seq<Seq<LocalParticle>>,
    segments_per_rank: int,
) -> Seq<Segment> {
    crate::cutoffs::merge_sorted(
        crate::cutoffs::flattened_segments(
            Seq::new(
                views.len(),
                |a: int|
                    crate::segment::segments_of(
                        sorted_records(extents, views[a]),
                        views[a].len() as int / segments_per_rank,
                    ),
            ),
        ),
    )
}

/// Default number of segments each rank aims for: the per-segment size
/// threshold is the local count divided by this.
pub const NUM_DESIRED_SEGMENTS_PER_RANK: usize = 10;

/// One full decomposition epoch over every rank's local items, returning
/// the agreed cutoffs and each rank's new local set.
///
/// The returned cutoffs are `cutoffs_walk` over `epoch_merged`, a pure
/// function of the exchanged segment data, which every rank receives
/// identically through the exchange — so every rank agrees on them
/// without further communication.  With degenerate geometry or load
/// (fewer items than ranks, or a zero-width occupied key range with all
/// items on one key) the accumulation search is skipped, no cutoffs are
/// produced, and every item stays on its current rank.  Otherwise each
/// item ends up on the rank whose key bucket brackets its key: ranks keep
/// their staying items in order, then materialize the received payloads,
/// source ranks in ascending order, as newly owned items with fresh
/// handles from `next_entity` up.
pub fn run_decomposition_epoch(
    extents: &Extents,
    particles: Vec<Vec<LocalParticle>>,
    segments_per_rank: usize,
    next_entity: u64,
) -> (r: (Vec<PeanoHilbertKey>, Vec<Vec<LocalParticle>>))
    requires
        extents.wf(),
        particles@.len() >= 1,
        segments_per_rank >= 1,
        forall|a: int|
            0 <= a < particles@.len() ==> all_contained(*extents, (#[trigger] particles@[a])@),
        total_len(particles@.map_values(|v: Vec<LocalParticle>| v@)) <= usize::MAX,
        next_entity + total_len(particles@.map_values(|v: Vec<LocalParticle>| v@)) <= u64::MAX,
    ensures
        ({
            let views = particles@.map_values(|v: Vec<LocalParticle>| v@);
            let size = particles@.len() as int;
            let merged = epoch_merged(*extents, views, segments_per_rank as int);
            let target = sum_counts(merged) / (size as nat);
            let degenerate = target == 0 || crate::cutoffs::single_key_span(merged);
            &&& r.1@.len() == size
            &&& sorted_keys(r.0@)
            &&& r.0@.len() < size
            &&& (degenerate ==> r.0@.len() == 0 && r.1@ == particles@)
            &&& (!degenerate ==> r.0@.map_values(|k: PeanoHilbertKey| k.0)
                == crate::cutoffs::cutoffs_walk(merged, target, (size - 1) as nat, 0, 0))
            &&& (!degenerate ==> forall|b: int|
                0 <= b < size ==> (#[trigger] r.1@[b])@ == routed_to(*extents, r.0@, views[b], b)
                    + materialized(
                    next_entity,
                    incoming_concat(*extents, r.0@, views, b, size),
                ))
            &&& (!degenerate ==> forall|b: int, i: int|
                0 <= b < size && 0 <= i < r.1@[b]@.len() ==> target_of(
                    *extents,
                    r.0@,
                    (#[trigger] r.1@[b]@[i]).pos,
                ) == b)
        }),
{
    let size = particles.len();
    let ghost views = particles@.map_values(|v: Vec<LocalParticle>| v@);
    // build each rank's sorted records and local histogram
    let mut all_lists: Vec<Vec<Segment>> = Vec::new();
    let mut a: usize = 0;
    while a < size
        invariant
            a <= size,
            size == particles@.len(),
            extents.wf(),
            segments_per_rank >= 1,
            views == particles@.map_values(|v: Vec<LocalParticle>| v@),
            forall|k: int|
                0 <= k < size ==> all_contained(*extents, (#[trigger] particles@[k])@),
            all_lists@.len() == a,
            forall|k: int|
                0 <= k < a ==> sum_counts((#[trigger] all_lists@[k])@)
                    == views[k].len(),
            forall|k: int|
                0 <= k < a ==> (#[trigger] all_lists@[k])@ == crate::segment::segments_of(
                    sorted_records(*extents, views[k]),
                    views[k].len() as int / segments_per_rank as int,
                ),
        decreases size - a,
    {
        let locals = &particles[a];
        let records = build_records(extents, locals);
        let desired = locals.len() / segments_per_rank;
        let segments = get_segments(&records, desired);
        proof {
            records@.to_multiset_ensures();
            views[a as int].to_multiset_ensures();
            particles@[a as int]@.map_values(
                |p: LocalParticle| record_of(*extents, p),
            ).to_multiset_ensures();
        }
        all_lists.push(segments);
        a += 1;
    }
    // exchange every rank's histogram with every other rank
    let seg_comms: Vec<ExchangeCommunicator<Segment>> =
        build_comms(size, Tag(0));
    let mut net_segments: Network<Segment> =
        Network::new(size);
    let mut seg_out: Vec<DataByRank<Segment>> = Vec::new();
    let mut sa: usize = 0;
    while sa < size
        invariant
            sa <= size,
            size == all_lists@.len(),
            seg_out@.len() == sa,
            forall|k: int|
                0 <= k < sa ==> (#[trigger] seg_out@[k]).wf(size as int) && seg_out@[k].rank == k
                    && forall|b: int|
                    0 <= b < size && b != k ==> (#[trigger] seg_out@[k].spec_get(b))
                        == all_lists@[k]@,
        decreases size - sa,
    {
        let mut staged: DataByRank<Segment> =
            DataByRank::from_size_and_rank(size, sa);
        let mut b: usize = 0;
        while b < size
            invariant
                b <= size,
                sa < size,
                size == all_lists@.len(),
                staged.wf(size as int),
                staged.rank == sa,
                forall|d: int|
                    0 <= d < b && d != sa ==> (#[trigger] staged.spec_get(d)) == (all_lists@[
                    sa as int])@,
            decreases size - b,
        {
            if b != sa {
                let ghost staged_before = staged;
                staged.insert(b, copy_row(&all_lists[sa]));
                proof {
                    assert(staged.spec_get(b as int) == (all_lists@[sa as int])@);
                    assert forall|dd: int|
                        0 <= dd < size && dd != b implies staged.spec_get(dd)
                        == staged_before.spec_get(dd) by {
                        assert(staged.data@[dd] == staged_before.data@[dd]);
                    }
                }
            }
            b += 1;
        }
        seg_out.push(staged);
        sa += 1;
    }
    let mut seg_in = exchange_all(&seg_comms, &mut net_segments, seg_out);
    // every rank reassembles the same global list: its own histogram plus
    // the exchanged ones, in rank order
    let mut gathered: Vec<Vec<Segment>> = Vec::new();
    let mut ga: usize = 0;
    while ga < size
        invariant
            ga <= size,
            size == all_lists@.len(),
            size == seg_in@.len(),
            size >= 1,
            seg_in@[0].wf(size as int),
            forall|k: int|
                ga <= k < size && k != 0 ==> seg_in@[0].spec_get(k) == (#[trigger] all_lists@[k])@,
            gathered@.len() == ga,
            forall|k: int| 0 <= k < ga ==> (#[trigger] gathered@[k])@ == all_lists@[k]@,
        decreases size - ga,
    {
        if ga == 0 {
            gathered.push(copy_row(&all_lists[0]));
        } else {
            let ghost slot_before = seg_in@[0];
            let row = seg_in[0].take(ga);
            proof {
                assert forall|k: int| 0 <= k < size && k != ga implies seg_in@[0].spec_get(k)
                    == slot_before.spec_get(k) by {
                    assert(seg_in@[0].data@[k] == slot_before.data@[k]);
                }
            }
            gathered.push(row);
        }
        ga += 1;
    }
    let merged = sort_and_merge_segments(&gathered);
    proof {
        let glists = gathered@.map_values(|v: Vec<Segment>| v@);
        let alists = all_lists@.map_values(|v: Vec<Segment>| v@);
        assert(glists =~= alists);
        lemma_sum_counts_flatten(alists);
        lemma_rows_total(alists, views);
        assert(sum_counts(merged@) == total_len(views));
        // the exchanged lists reassemble exactly the specified histogram
        let spec_rows = Seq::new(
            views.len(),
            |k: int|
                crate::segment::segments_of(
                    sorted_records(*extents, views[k]),
                    views[k].len() as int / segments_per_rank as int,
                ),
        );
        assert(alists =~= spec_rows);
        assert(merged@ == epoch_merged(*extents, views, segments_per_rank as int));
    }
    let cutoffs = compute_cutoffs(&merged, size);
    let ghost target = sum_counts(merged@) / (size as nat);
    let ghost degenerate = target == 0 || crate::cutoffs::single_key_span(merged@);
    // degenerate geometry or load: skip the accumulation search and leave
    // every item on its current rank
    if cutoffs.is_empty() {
        proof {
            if !degenerate {
                // the pinned walk emitted nothing, which with at least two
                // ranks is impossible once the total reaches the target
                assert(cutoffs@.map_values(|k: PeanoHilbertKey| k.0) =~= Seq::<u64>::empty());
                if size >= 2 {
                    assert(sum_counts(merged@) >= target) by {
                        vstd::arithmetic::div_mod::lemma_fundamental_div_mod(
                            sum_counts(merged@) as int,
                            size as int,
                        );
                        vstd::arithmetic::mul::lemma_mul_inequality(
                            1,
                            size as int,
                            target as int,
                        );
                    }
                    crate::cutoffs::lemma_walk_emits(
                        merged@,
                        target,
                        (size - 1) as nat,
                        0,
                        0,
                    );
                    assert(false);
                }
                // a single rank: the walk is empty and every item already
                // routes to the only rank
                crate::cutoffs::lemma_walk_unfold(merged@, target, (size - 1) as nat, 0, 0);
                broadcast use Seq::lemma_filter_len;

                assert forall|i: int|
                    0 <= i < views[0].len() implies route_pred(*extents, cutoffs@, 0)(
                    #[trigger] views[0][i],
                ) by {
                    assert(num_cutoffs_at_most(cutoffs@, key_of(*extents, views[0][i].pos) as int)
                        <= cutoffs@.len());
                }
                crate::segment::lemma_filter_all_true(views[0], route_pred(*extents, cutoffs@, 0));
                lemma_incoming_concat_unfold(*extents, cutoffs@, views, 0, 1);
                lemma_incoming_concat_unfold(*extents, cutoffs@, views, 0, 0);
                assert(materialized(next_entity, incoming_concat(*extents, cutoffs@, views, 0, 1))
                    =~= Seq::<LocalParticle>::empty());
                assert(particles@[0]@ == views[0]);
                assert(particles@[0]@ =~= routed_to(*extents, cutoffs@, views[0], 0)
                    + materialized(
                    next_entity,
                    incoming_concat(*extents, cutoffs@, views, 0, 1),
                ));
                assert forall|b: int, i: int|
                    0 <= b < size && 0 <= i < particles@[b]@.len() implies target_of(
                    *extents,
                    cutoffs@,
                    (#[trigger] particles@[b]@[i]).pos,
                ) == b by {
                    assert(num_cutoffs_at_most(cutoffs@, key_of(*extents, particles@[b]@[i].pos) as int)
                        <= cutoffs@.len());
                }
            }
        }
        return (cutoffs, particles);
    }
    proof {
        // non-empty cutoffs mean the geometry and load are not degenerate
        assert(!degenerate);
    }
    // route every rank's items and stage the outgoing payloads
    let mut stayed: Vec<Vec<LocalParticle>> = Vec::new();
    let mut payload_out: Vec<DataByRank<ParticleExchangeData>> = Vec::new();
    let mut counts_out: Vec<DataByRank<usize>> = Vec::new();
    let mut ra: usize = 0;
    while ra < size
        invariant
            ra <= size,
            size == particles@.len(),
            extents.wf(),
            views == particles@.map_values(|v: Vec<LocalParticle>| v@),
            forall|k: int|
                0 <= k < size ==> all_contained(*extents, (#[trigger] particles@[k])@),
            sorted_keys(cutoffs@),
            cutoffs@.len() < size,
            stayed@.len() == ra,
            payload_out@.len() == ra,
            counts_out@.len() == ra,
            forall|k: int|
                0 <= k < ra ==> (#[trigger] stayed@[k])@ == routed_to(
                    *extents,
                    cutoffs@,
                    views[k],
                    k,
                ),
            forall|k: int|
                0 <= k < ra ==> (#[trigger] payload_out@[k]).wf(size as int)
                    && payload_out@[k].rank == k && forall|d: int|
                    0 <= d < size && d != k ==> (#[trigger] payload_out@[k].spec_get(d))
                        == outgoing_view(*extents, cutoffs@, views[k], d),
            forall|k: int|
                0 <= k < ra ==> (#[trigger] counts_out@[k]).wf(size as int) && counts_out@[k].rank
                    == k && forall|d: int|
                    0 <= d < size && d != k ==> (#[trigger] counts_out@[k].spec_get(d)).len() == 1
                        && counts_out@[k].spec_get(d)[0] == outgoing_view(
                        *extents,
                        cutoffs@,
                        views[k],
                        d,
                    ).len(),
        decreases size - ra,
    {
        let locals = copy_row(&particles[ra]);
        let (stay, staged) = route_particles(extents, &cutoffs, locals, ra, size);
        let mut counts: DataByRank<usize> =
            DataByRank::from_size_and_rank(size, ra);
        let mut d: usize = 0;
        while d < size
            invariant
                d <= size,
                ra < size,
                size == particles@.len(),
                extents.wf(),
                views == particles@.map_values(|v: Vec<LocalParticle>| v@),
                staged.wf(size as int),
                staged.rank == ra,
                forall|k: int|
                    0 <= k < size && k != ra ==> (#[trigger] staged.spec_get(k)) == outgoing_view(
                        *extents,
                        cutoffs@,
                        views[ra as int],
                        k,
                    ),
                counts.wf(size as int),
                counts.rank == ra,
                forall|k: int|
                    0 <= k < d && k != ra ==> (#[trigger] counts.spec_get(k)).len() == 1
                        && counts.spec_get(k)[0] == outgoing_view(
                        *extents,
                        cutoffs@,
                        views[ra as int],
                        k,
                    ).len(),
            decreases size - d,
        {
            if d != ra {
                let mut announced: Vec<usize> = Vec::new();
                announced.push(staged.get(d).len());
                let ghost counts_before = counts;
                counts.insert(d, announced);
                proof {
                    assert(counts.spec_get(d as int).len() == 1);
                    assert(counts.spec_get(d as int)[0] == outgoing_view(
                        *extents,
                        cutoffs@,
                        views[ra as int],
                        d as int,
                    ).len());
                    assert forall|kk: int|
                        0 <= kk < size && kk != d implies counts.spec_get(kk)
                        == counts_before.spec_get(kk) by {
                        assert(counts.data@[kk] == counts_before.data@[kk]);
                    }
                }
            }
            d += 1;
        }
        stayed.push(stay);
        payload_out.push(staged);
        counts_out.push(counts);
        ra += 1;
    }
    // migration: first the per-rank item counts, then the payloads
    let count_comms: Vec<ExchangeCommunicator<usize>> = build_comms(
        size,
        Tag(1),
    );
    let mut net_counts: Network<usize> = Network::new(
        size,
    );
    let counts_in = exchange_all(&count_comms, &mut net_counts, counts_out);
    let payload_comms: Vec<ExchangeCommunicator<ParticleExchangeData>> =
        build_comms(size, Tag(2));
    let mut net_payload: Network<ParticleExchangeData> =
        Network::new(size);
    let payload_in = exchange_all(&payload_comms, &mut net_payload, payload_out);
    // every rank keeps its staying items and materializes what it received
    let mut result: Vec<Vec<LocalParticle>> = Vec::new();
    let mut mb: usize = 0;
    while mb < size
        invariant
            mb <= size,
            size == particles@.len(),
            size >= 1,
            extents.wf(),
            views == particles@.map_values(|v: Vec<LocalParticle>| v@),
            sorted_keys(cutoffs@),
            cutoffs@.len() < size,
            total_len(views) <= usize::MAX,
            next_entity + total_len(views) <= u64::MAX,
            stayed@.len() == size,
            counts_in@.len() == size,
            payload_in@.len() == size,
            forall|k: int|
                0 <= k < size ==> (#[trigger] stayed@[k])@ == routed_to(
                    *extents,
                    cutoffs@,
                    views[k],
                    k,
                ),
            forall|k: int|
                0 <= k < size ==> (#[trigger] payload_in@[k]).wf(size as int)
                    && payload_in@[k].rank == k,
            forall|k: int|
                0 <= k < size ==> (#[trigger] counts_in@[k]).wf(size as int) && counts_in@[k].rank
                    == k,
            forall|k: int, s: int|
                0 <= k < size && 0 <= s < size && s != k ==> (#[trigger] payload_in@[k].spec_get(
                    s,
                )) == outgoing_view(*extents, cutoffs@, views[s], k),
            forall|k: int, s: int|
                0 <= k < size && 0 <= s < size && s != k ==> (#[trigger] counts_in@[k].spec_get(s)).len()
                    == 1 && counts_in@[k].spec_get(s)[0] == outgoing_view(
                    *extents,
                    cutoffs@,
                    views[s],
                    k,
                ).len(),
            result@.len() == mb,
            forall|k: int|
                0 <= k < mb ==> (#[trigger] result@[k])@ == routed_to(
                    *extents,
                    cutoffs@,
                    views[k],
                    k,
                ) + materialized(
                    next_entity,
                    incoming_concat(*extents, cutoffs@, views, k, size as int),
                ),
        decreases size - mb,
    {
        proof {
            lemma_incoming_matches(
                *extents,
                cutoffs@,
                views,
                payload_in@[mb as int],
                mb as int,
                size as int,
            );
            lemma_incoming_targets(*extents, cutoffs@, views, mb as int, size as int);
            assert(views.take(views.len() as int) =~= views);
        }
        let migrated = materialize_incoming(next_entity, &payload_in[mb], &counts_in[mb], size);
        let mut row = copy_row(&stayed[mb]);
        let mut migrated = migrated;
        row.append(&mut migrated);
        result.push(row);
        mb += 1;
    }
    proof {
        assert forall|b: int, i: int|
            0 <= b < size && 0 <= i < result@[b]@.len() implies target_of(
            *extents,
            cutoffs@,
            (#[trigger] result@[b]@[i]).pos,
        ) == b by {
            let stay = routed_to(*extents, cutoffs@, views[b], b);
            let ms = incoming_concat(*extents, cutoffs@, views, b, size as int);
            if i < stay.len() {
                views[b].lemma_filter_pred(route_pred(*extents, cutoffs@, b), i);
            } else {
                lemma_incoming_targets(*extents, cutoffs@, views, b, size as int);
                assert(result@[b]@[i] == materialized(next_entity, ms)[i - stay.len()]);
            }
        }
    }
    (cutoffs, result)
}

/// First index whose record key is at least `key`.
fn key_lower_bound(records: &Vec<ParticleData>, key: u64) -> (r: usize)
    requires
        sorted(records@),
    ensures
        r <= records@.len(),
        forall|i: int| 0 <= i < r ==> (#[trigger] records@[i]).key.0 < key,
        forall|i: int| r <= i < records@.len() ==> (#[trigger] records@[i]).key.0 >= key,
{
    let mut lo: usize = 0;
    let mut hi: usize = records.len();
    while lo < hi
        invariant
            lo <= hi <= records@.len(),
            sorted(records@),
            forall|i: int| 0 <= i < lo ==> (#[trigger] records@[i]).key.0 < key,
            forall|i: int| hi <= i < records@.len() ==> (#[trigger] records@[i]).key.0 >= key,
        decreases hi - lo,
    {
        let mid = lo + (hi - lo) / 2;
        if records[mid].key.0 < key {
            lo = mid + 1;
        } else {
            hi = mid;
        }
    }
    lo
}

} // verus!
