//! Merge of every rank's segment list into one ordered histogram, the
//! greedy cutoff solver, and the cutoff-based rank router.
//!
//! Every rank runs the merge and the solver on the same exchanged data, so
//! both are pure functions of their input: no unordered iteration, no
//! hidden state.  All ranks therefore agree on the cutoffs without any
//! further communication.

use vstd::prelude::*;
use vstd::seq_lib::lemma_multiset_commutative;

use crate::peano_hilbert::PeanoHilbertKey;
use crate::segment::Segment;
use crate::segment::lemma_sum_counts_add;
use crate::segment::lemma_sum_counts_unfold;
use crate::segment::sum_counts;

verus! {

/// Segments ordered by non-decreasing start key.
pub open spec fn sorted_by_start(segments: Seq<Segment>) -> bool {
    forall|i: int, j: int|
        0 <= i <= j < segments.len() ==> (#[trigger] segments[i]).start.0
            <= (#[trigger] segments[j]).start.0
}

/// Keys in non-decreasing order.
pub open spec fn sorted_keys(cutoffs: Seq<PeanoHilbertKey>) -> bool {
    forall|i: int, j: int|
        0 <= i <= j < cutoffs.len() ==> (#[trigger] cutoffs[i]).0 <= (#[trigger] cutoffs[j]).0
}

/// The concatenation of every rank's segment list, in rank order.
pub open spec fn flattened_segments(all_segments: Seq<Seq<Segment>>) -> Seq<Segment> {
    all_segments.flatten()
}

/// How many cutoffs are at or below `key`: the rank that owns `key`.
pub open spec fn num_cutoffs_at_most(cutoffs: Seq<PeanoHilbertKey>, key: int) -> nat {
    cutoffs.filter(|c: PeanoHilbertKey| c.0 <= key).len()
}

/// The greedy cutoff walk: accumulate counts along the merged segments and
/// emit a segment's end key (clamped to keep cutoffs non-decreasing)
/// whenever the running load reaches `target`, until `remaining` cutoffs
/// have been emitted.
pub open spec fn cutoffs_walk(
    segments: Seq<Segment>,
    target: nat,
    remaining: nat,
    load: nat,
    prev: u64,
) -> Seq<u64>
    decreases segments.len(),
{
    if segments.len() == 0 || remaining == 0 {
        Seq::empty()
    } else {
        let seg = segments.first();
        let load2: nat = (load + seg.num_particles) as nat;
        if load2 >= target {
            let c: u64 = if seg.end.0 > prev {
                seg.end.0
            } else {
                prev
            };
            seq![c] + cutoffs_walk(segments.drop_first(), target, (remaining - 1) as nat, 0, c)
        } else {
            cutoffs_walk(segments.drop_first(), target, remaining, load2, prev)
        }
    }
}

/// The defining equation of `cutoffs_walk`, restated for callers.
pub proof fn lemma_walk_unfold(segments: Seq<Segment>, target: nat, remaining: nat, load: nat, prev: u64)
    ensures
        (segments.len() == 0 || remaining == 0) ==> cutoffs_walk(segments, target, remaining, load, prev)
            =~= Seq::<u64>::empty(),
        (segments.len() > 0 && remaining > 0) ==> cutoffs_walk(segments, target, remaining, load, prev)
            == ({
            let seg = segments.first();
            let load2: nat = (load + seg.num_particles) as nat;
            if load2 >= target {
                let c: u64 = if seg.end.0 > prev {
                    seg.end.0
                } else {
                    prev
                };
                seq![c] + cutoffs_walk(segments.drop_first(), target, (remaining - 1) as nat, 0, c)
            } else {
                cutoffs_walk(segments.drop_first(), target, remaining, load2, prev)
            }
        }),
    decreases segments.len(),
{
    if segments.len() > 0 && remaining > 0 {
        let seg = segments.first();
        let load2: nat = (load + seg.num_particles) as nat;
        if load2 >= target {
            let c: u64 = if seg.end.0 > prev {
                seg.end.0
            } else {
                prev
            };
            lemma_walk_unfold(segments.drop_first(), target, (remaining - 1) as nat, 0, c);
        } else {
            lemma_walk_unfold(segments.drop_first(), target, remaining, load2, prev);
        }
    }
}

/// Where the stable insertion sort puts a segment with start key `key`:
/// after every already sorted segment whose start is at or below it.
pub open spec fn insert_position(sorted: Seq<Segment>, key: u64) -> int {
    sorted.filter(|s: Segment| s.start.0 <= key).len() as int
}

/// One step of the stable insertion sort by start key.
pub open spec fn stable_insert(sorted: Seq<Segment>, seg: Segment) -> Seq<Segment> {
    sorted.insert(insert_position(sorted, seg.start.0), seg)
}

/// The stable sort by start key, as a function of the flattened input:
/// segments are inserted one at a time, each after all equal starts.
pub open spec fn merge_sorted(flat: Seq<Segment>) -> Seq<Segment>
    decreases flat.len(),
{
    if flat.len() == 0 {
        Seq::empty()
    } else {
        stable_insert(merge_sorted(flat.drop_last()), flat.last())
    }
}

/// The defining equation of `merge_sorted`, restated for callers.
proof fn lemma_merge_sorted_unfold(flat: Seq<Segment>)
    ensures
        flat.len() == 0 ==> merge_sorted(flat) =~= Seq::<Segment>::empty(),
        flat.len() > 0 ==> merge_sorted(flat) == stable_insert(
            merge_sorted(flat.drop_last()),
            flat.last(),
        ),
    decreases flat.len(),
{
    if flat.len() > 0 {
        lemma_merge_sorted_unfold(flat.drop_last());
    }
}

/// For sorted-by-start segments split at `r` between starts at most `key`
/// and starts above it, the insertion position is exactly `r`.
proof fn lemma_insert_position_by_bounds(segments: Seq<Segment>, key: u64, r: int)
    requires
        0 <= r <= segments.len(),
        forall|i: int| 0 <= i < r ==> (#[trigger] segments[i]).start.0 <= key,
        forall|i: int| r <= i < segments.len() ==> (#[trigger] segments[i]).start.0 > key,
    ensures
        insert_position(segments, key) == r,
{
    broadcast use Seq::filter_distributes_over_add;

    let pred = |s: Segment| s.start.0 <= key;
    let low = segments.take(r);
    let high = segments.skip(r);
    assert(segments =~= low + high);
    crate::segment::lemma_filter_all_true(low, pred);
    high.lemma_all_neg_filter_empty(pred);
    assert(segments.filter(pred).len() == low.filter(pred).len() + high.filter(pred).len());
}

/// All merged segments sit on one key: every start is the same and no
/// segment reaches past the next key — the zero-width occupied range of
/// degenerate geometry, where all records share one position.
pub open spec fn single_key_span(segments: Seq<Segment>) -> bool {
    forall|i: int, j: int|
        0 <= i < segments.len() && 0 <= j < segments.len() ==> (#[trigger] segments[i]).start.0
            == (#[trigger] segments[j]).start.0 && segments[i].end.0 <= segments[i].start.0 + 1
}

/// With a positive target still ahead of the running load but within
/// reach of the remaining counts, the walk emits at least one cutoff.
pub proof fn lemma_walk_emits(
    segments: Seq<Segment>,
    target: nat,
    remaining: nat,
    load: nat,
    prev: u64,
)
    requires
        target >= 1,
        remaining >= 1,
        load < target,
        load + sum_counts(segments) >= target,
    ensures
        cutoffs_walk(segments, target, remaining, load, prev).len() >= 1,
    decreases segments.len(),
{
    lemma_walk_unfold(segments, target, remaining, load, prev);
    lemma_sum_counts_unfold(segments);
    if segments.len() == 0 {
        assert(false);
    } else {
        let seg = segments.first();
        let rest = segments.drop_first();
        assert(segments =~= seq![seg] + rest);
        lemma_sum_counts_add(seq![seg], rest);
        lemma_sum_counts_unfold(seq![seg]);
        lemma_sum_counts_unfold(seq![seg].drop_last());
        assert(seq![seg].drop_last() =~= Seq::<Segment>::empty());
        let load2: nat = (load + seg.num_particles) as nat;
        if load2 < target {
            lemma_walk_emits(rest, target, remaining, load2, prev);
        }
    }
}

/// Summing splits across a prefix boundary.
proof fn lemma_sum_counts_take(segments: Seq<Segment>, i: int)
    requires
        0 <= i < segments.len(),
    ensures
        sum_counts(segments.take(i + 1)) == sum_counts(segments.take(i))
            + segments[i].num_particles,
        sum_counts(segments.take(i)) <= sum_counts(segments),
        sum_counts(segments.take(i + 1)) <= sum_counts(segments),
    decreases segments.len() - i,
{
    lemma_sum_counts_unfold(segments.take(i + 1));
    assert(segments.take(i + 1).drop_last() =~= segments.take(i));
    if i + 1 < segments.len() {
        lemma_sum_counts_take(segments, i + 1);
    } else {
        assert(segments.take(i + 1) =~= segments);
    }
}

/// Inserting one segment adds its count to the sum.
proof fn lemma_sum_counts_insert(segments: Seq<Segment>, pos: int, seg: Segment)
    requires
        0 <= pos <= segments.len(),
    ensures
        sum_counts(segments.insert(pos, seg)) == sum_counts(segments) + seg.num_particles,
    decreases segments.len(),
{
    lemma_sum_counts_unfold(segments);
    lemma_sum_counts_unfold(segments.insert(pos, seg));
    if pos == segments.len() {
        assert(segments.insert(pos, seg).drop_last() =~= segments);
    } else {
        lemma_sum_counts_insert(segments.drop_last(), pos, seg);
        assert(segments.insert(pos, seg).drop_last() =~= segments.drop_last().insert(pos, seg));
        assert(segments.insert(pos, seg).last() == segments.last());
    }
}

/// First index whose segment starts after `key`; everything before starts
/// at or before it.
fn start_upper_bound(segments: &Vec<Segment>, key: u64) -> (r: usize)
    requires
        sorted_by_start(segments@),
    ensures
        r <= segments@.len(),
        forall|i: int| 0 <= i < r ==> (#[trigger] segments@[i]).start.0 <= key,
        forall|i: int| r <= i < segments@.len() ==> (#[trigger] segments@[i]).start.0 > key,
{
    let mut lo: usize = 0;
    let mut hi: usize = segments.len();
    while lo < hi
        invariant
            lo <= hi <= segments@.len(),
            sorted_by_start(segments@),
            forall|i: int| 0 <= i < lo ==> (#[trigger] segments@[i]).start.0 <= key,
            forall|i: int| hi <= i < segments@.len() ==> (#[trigger] segments@[i]).start.0 > key,
        decreases hi - lo,
    {
        let mid = lo + (hi - lo) / 2;
        if segments[mid].start.0 <= key {
            lo = mid + 1;
        } else {
            hi = mid;
        }
    }
    lo
}

/// Flattens every rank's segment list, in rank order, then sorts by start
/// key.  The result is a deterministic function of the exchanged lists, it
/// keeps exactly the exchanged segments, and it keeps the total count.
pub fn sort_and_merge_segments(all_segments: &Vec<Vec<Segment>>) -> (merged: Vec<Segment>)
    ensures
        merged@ == merge_sorted(flattened_segments(all_segments@.map_values(|v: Vec<Segment>| v@))),
        sorted_by_start(merged@),
        merged@.to_multiset() == flattened_segments(all_segments@.map_values(|v: Vec<Segment>| v@))
            .to_multiset(),
        sum_counts(merged@) == sum_counts(
            flattened_segments(all_segments@.map_values(|v: Vec<Segment>| v@)),
        ),
{
    broadcast use Seq::to_multiset_ensures;
    broadcast use Seq::lemma_flatten_push;

    let ghost mapped = all_segments@.map_values(|v: Vec<Segment>| v@);
    let mut flat: Vec<Segment> = Vec::new();
    let mut r: usize = 0;
    proof {
        assert(mapped.take(0) =~= Seq::<Seq<Segment>>::empty());
        assert(Seq::<Seq<Segment>>::empty().flatten() =~= Seq::<Segment>::empty());
    }
    while r < all_segments.len()
        invariant
            r <= all_segments@.len(),
            mapped == all_segments@.map_values(|v: Vec<Segment>| v@),
            flat@ == mapped.take(r as int).flatten(),
        decreases all_segments@.len() - r,
    {
        let row = &all_segments[r];
        let mut c: usize = 0;
        while c < row.len()
            invariant
                c <= row@.len(),
                row@ == all_segments@[r as int]@,
                r < all_segments@.len(),
                mapped == all_segments@.map_values(|v: Vec<Segment>| v@),
                flat@ == mapped.take(r as int).flatten() + row@.take(c as int),
            decreases row@.len() - c,
        {
            flat.push(row[c]);
            proof {
                assert(row@.take(c + 1) =~= row@.take(c as int).push(row@[c as int]));
                assert(flat@ =~= mapped.take(r as int).flatten() + row@.take(c + 1));
            }
            c += 1;
        }
        proof {
            assert(row@.take(row@.len() as int) =~= row@);
            assert(mapped.take(r + 1) =~= mapped.take(r as int).push(row@));
            mapped.take(r as int).lemma_flatten_push(row@);
        }
        r += 1;
    }
    proof {
        assert(mapped.take(mapped.len() as int) =~= mapped);
    }
    // insertion sort by start key, stable by construction
    let mut merged: Vec<Segment> = Vec::new();
    let mut i: usize = 0;
    proof {
        lemma_sum_counts_unfold(merged@);
        lemma_sum_counts_unfold(flat@.take(0));
        assert(flat@.take(0) =~= Seq::<Segment>::empty());
        assert(merged@.to_multiset() =~= flat@.take(0).to_multiset());
        lemma_merge_sorted_unfold(flat@.take(0));
        assert(merged@ =~= merge_sorted(flat@.take(0)));
    }
    while i < flat.len()
        invariant
            i <= flat@.len(),
            sorted_by_start(merged@),
            merged@ == merge_sorted(flat@.take(i as int)),
            merged@.to_multiset() == flat@.take(i as int).to_multiset(),
            sum_counts(merged@) == sum_counts(flat@.take(i as int)),
        decreases flat@.len() - i,
    {
        let seg = flat[i];
        let pos = start_upper_bound(&merged, seg.start.0);
        let ghost before = merged@;
        merged.insert(pos, seg);
        proof {
            // sortedness is preserved around the insertion point
            assert forall|a: int, b: int|
                0 <= a <= b < merged@.len() implies (#[trigger] merged@[a]).start.0 <= (
            #[trigger] merged@[b]).start.0 by {
                if a < pos && b >= pos && b > pos {
                    assert(merged@[b] == before[b - 1]);
                }
            }
            // the inserted element joins the prefix multiset
            assert(merged@ =~= before.take(pos as int).push(seg) + before.skip(pos as int));
            assert(before =~= before.take(pos as int) + before.skip(pos as int));
            lemma_multiset_commutative(before.take(pos as int).push(seg), before.skip(pos as int));
            lemma_multiset_commutative(before.take(pos as int), before.skip(pos as int));
            before.take(pos as int).to_multiset_ensures();
            assert(before.take(pos as int).push(seg).to_multiset() =~= before.take(
                pos as int,
            ).to_multiset().insert(seg));
            assert(merged@.to_multiset() =~= before.to_multiset().insert(seg));
            assert(flat@.take(i + 1) =~= flat@.take(i as int).push(seg));
            flat@.take(i as int).to_multiset_ensures();
            assert(flat@.take(i as int).push(seg).to_multiset() =~= flat@.take(
                i as int,
            ).to_multiset().insert(seg));
            assert(merged@.to_multiset() =~= flat@.take(i + 1).to_multiset());
            // the sum grows by the inserted count
            lemma_sum_counts_insert(before, pos as int, seg);
            lemma_sum_counts_unfold(flat@.take(i + 1));
            assert(flat@.take(i + 1).drop_last() =~= flat@.take(i as int));
            // the insertion point is the stable sort's insertion position
            lemma_insert_position_by_bounds(before, seg.start.0, pos as int);
            lemma_merge_sorted_unfold(flat@.take(i + 1));
            assert(merged@ =~= stable_insert(before, seg));
            assert(merged@ == merge_sorted(flat@.take(i + 1)));
        }
        i += 1;
    }
    proof {
        assert(flat@.take(flat@.len() as int) =~= flat@);
    }
    merged
}

/// Greedy cutoff solver: walk the merged histogram accumulating counts and
/// emit a cutoff each time the running load reaches the per-rank target,
/// stopping after `num_ranks - 1` cutoffs.  With a zero target (degenerate
/// load) no cutoffs are produced and the caller leaves items where they
/// are.
pub fn compute_cutoffs(merged: &Vec<Segment>, num_ranks: usize) -> (cutoffs: Vec<PeanoHilbertKey>)
    requires
        num_ranks >= 1,
        sum_counts(merged@) <= usize::MAX,
    ensures
        ({
            let target = sum_counts(merged@) / (num_ranks as nat);
            let degenerate = target == 0 || single_key_span(merged@);
            &&& degenerate ==> cutoffs@.len() == 0
            &&& !degenerate ==> cutoffs@.map_values(|k: PeanoHilbertKey| k.0) == cutoffs_walk(
                merged@,
                target,
                (num_ranks - 1) as nat,
                0,
                0,
            )
        }),
        sorted_keys(cutoffs@),
        cutoffs@.len() <= num_ranks - 1,
{
    broadcast use Seq::lemma_push_map_commute;

    let ghost total_spec = sum_counts(merged@);
    let mut total: usize = 0;
    let mut i: usize = 0;
    proof {
        lemma_sum_counts_unfold(merged@.take(0));
        assert(merged@.take(0) =~= Seq::<Segment>::empty());
    }
    while i < merged.len()
        invariant
            i <= merged@.len(),
            total == sum_counts(merged@.take(i as int)),
            sum_counts(merged@) <= usize::MAX,
        decreases merged@.len() - i,
    {
        proof {
            lemma_sum_counts_take(merged@, i as int);
        }
        total = total + merged[i].num_particles;
        i += 1;
    }
    proof {
        assert(merged@.take(merged@.len() as int) =~= merged@);
    }
    let target = total / num_ranks;
    let mut cutoffs: Vec<PeanoHilbertKey> = Vec::new();
    if target == 0 {
        return cutoffs;
    }
    // degenerate geometry: the occupied key range has zero width, so the
    // accumulation is skipped and every item stays on its current rank
    let first_start = merged[0].start.0;
    let mut narrow = true;
    let mut n: usize = 0;
    while n < merged.len()
        invariant
            n <= merged@.len(),
            merged@.len() > 0,
            first_start == merged@[0].start.0,
            narrow <==> forall|k: int|
                0 <= k < n ==> (#[trigger] merged@[k]).start.0 == first_start
                    && merged@[k].end.0 <= first_start + 1,
        decreases merged@.len() - n,
    {
        let seg = merged[n];
        if seg.start.0 != first_start || (seg.end.0 > first_start && seg.end.0 - first_start > 1) {
            narrow = false;
        }
        n += 1;
    }
    if narrow {
        proof {
            assert(single_key_span(merged@));
        }
        return cutoffs;
    }
    proof {
        assert(!single_key_span(merged@)) by {
            assert(!(forall|k: int|
                0 <= k < merged@.len() ==> (#[trigger] merged@[k]).start.0 == first_start
                    && merged@[k].end.0 <= first_start + 1));
            let bad = choose|k: int|
                !(0 <= k < merged@.len() ==> (#[trigger] merged@[k]).start.0 == first_start
                    && merged@[k].end.0 <= first_start + 1);
            if single_key_span(merged@) {
                assert(merged@[bad].start.0 == merged@[0].start.0);
                assert(merged@[bad].end.0 <= merged@[bad].start.0 + 1);
            }
        }
    }
    let mut load: usize = 0;
    let mut prev: u64 = 0;
    let mut j: usize = 0;
    proof {
        assert(merged@.skip(0) =~= merged@);
        assert(cutoffs@.map_values(|k: PeanoHilbertKey| k.0) =~= Seq::<u64>::empty());
        lemma_sum_counts_unfold(merged@.take(0));
        assert(merged@.take(0) =~= Seq::<Segment>::empty());
    }
    while j < merged.len() && cutoffs.len() < num_ranks - 1
        invariant
            j <= merged@.len(),
            num_ranks >= 1,
            cutoffs@.len() <= num_ranks - 1,
            target == sum_counts(merged@) / (num_ranks as nat),
            target > 0,
            sum_counts(merged@) <= usize::MAX,
            load <= sum_counts(merged@.take(j as int)),
            sorted_keys(cutoffs@),
            forall|k: int| 0 <= k < cutoffs@.len() ==> (#[trigger] cutoffs@[k]).0 <= prev,
            cutoffs_walk(merged@, target as nat, (num_ranks - 1) as nat, 0, 0) == cutoffs@
                .map_values(|k: PeanoHilbertKey| k.0) + cutoffs_walk(
                merged@.skip(j as int),
                target as nat,
                (num_ranks - 1 - cutoffs@.len()) as nat,
                load as nat,
                prev,
            ),
        decreases merged@.len() - j,
    {
        let seg = merged[j];
        proof {
            lemma_sum_counts_take(merged@, j as int);
            lemma_walk_unfold(
                merged@.skip(j as int),
                target as nat,
                (num_ranks - 1 - cutoffs@.len()) as nat,
                load as nat,
                prev,
            );
            assert(merged@.skip(j as int).first() == merged@[j as int]);
            assert(merged@.skip(j as int).drop_first() =~= merged@.skip(j + 1));
        }
        load = load + seg.num_particles;
        if load >= target {
            let c: u64 = if seg.end.0 > prev {
                seg.end.0
            } else {
                prev
            };
            cutoffs.push(PeanoHilbertKey(c));
            prev = c;
            load = 0;
            proof {
                lemma_sum_counts_unfold(merged@.take(j + 1));
            }
        }
        j += 1;
    }
    proof {
        lemma_walk_unfold(
            merged@.skip(j as int),
            target as nat,
            (num_ranks - 1 - cutoffs@.len()) as nat,
            load as nat,
            prev,
        );
        if j < merged@.len() {
            assert(cutoffs@.len() == num_ranks - 1);
        }
    }
    cutoffs
}

/// Rank that owns `key`: the number of cutoffs at or below it, found by
/// binary search.  Total over all keys, and monotone: results always lie
/// in `[0, cutoffs.len()]`, which is `[0, P)` for `P - 1` cutoffs.
pub fn target_rank(cutoffs: &Vec<PeanoHilbertKey>, key: PeanoHilbertKey) -> (r: usize)
    requires
        sorted_keys(cutoffs@),
    ensures
        r == num_cutoffs_at_most(cutoffs@, key.0 as int),
        r <= cutoffs@.len(),
{
    let mut lo: usize = 0;
    let mut hi: usize = cutoffs.len();
    while lo < hi
        invariant
            lo <= hi <= cutoffs@.len(),
            sorted_keys(cutoffs@),
            forall|i: int| 0 <= i < lo ==> (#[trigger] cutoffs@[i]).0 <= key.0,
            forall|i: int| hi <= i < cutoffs@.len() ==> (#[trigger] cutoffs@[i]).0 > key.0,
        decreases hi - lo,
    {
        let mid = lo + (hi - lo) / 2;
        if cutoffs[mid].0 <= key.0 {
            lo = mid + 1;
        } else {
            hi = mid;
        }
    }
    proof {
        lemma_key_count_by_bounds(cutoffs@, key.0 as int, lo as int);
    }
    lo
}

/// For sorted cutoffs split at `r` between keys at most `key` and keys
/// above it, the at-most count is exactly `r`.
proof fn lemma_key_count_by_bounds(cutoffs: Seq<PeanoHilbertKey>, key: int, r: int)
    requires
        0 <= r <= cutoffs.len(),
        forall|i: int| 0 <= i < r ==> (#[trigger] cutoffs[i]).0 <= key,
        forall|i: int| r <= i < cutoffs.len() ==> (#[trigger] cutoffs[i]).0 > key,
    ensures
        num_cutoffs_at_most(cutoffs, key) == r,
{
    broadcast use Seq::filter_distributes_over_add;

    let pred = |c: PeanoHilbertKey| c.0 <= key;
    let low = cutoffs.take(r);
    let high = cutoffs.skip(r);
    assert(cutoffs =~= low + high);
    crate::segment::lemma_filter_all_true(low, pred);
    high.lemma_all_neg_filter_empty(pred);
    assert(cutoffs.filter(pred).len() == low.filter(pred).len() + high.filter(pred).len());
}

/// Counting with a weaker bound never returns less: the at-most count is
/// monotone in the key.
proof fn lemma_count_at_most_monotone(cutoffs: Seq<PeanoHilbertKey>, k1: int, k2: int)
    requires
        k1 <= k2,
    ensures
        num_cutoffs_at_most(cutoffs, k1) <= num_cutoffs_at_most(cutoffs, k2),
    decreases cutoffs.len(),
{
    broadcast use Seq::lemma_filter_push;

    if cutoffs.len() > 0 {
        let rest = cutoffs.drop_last();
        lemma_count_at_most_monotone(rest, k1, k2);
        assert(rest.push(cutoffs.last()) =~= cutoffs);
    }
}

/// Law: the rank router is total and monotone.  For well-formed cutoffs of
/// length `P - 1` every key routes to a rank in `[0, P)`; a key below the
/// first cutoff routes to rank 0; a key at or above the last cutoff routes
/// to rank `P - 1`; and a larger key never routes to a smaller rank.
pub proof fn lemma_target_rank_properties(
    cutoffs: Seq<PeanoHilbertKey>,
    num_ranks: int,
    k1: int,
    k2: int,
)
    requires
        sorted_keys(cutoffs),
        num_ranks >= 1,
        cutoffs.len() == num_ranks - 1,
        k1 <= k2,
    ensures
        0 <= num_cutoffs_at_most(cutoffs, k1) < num_ranks,
        num_cutoffs_at_most(cutoffs, k1) <= num_cutoffs_at_most(cutoffs, k2),
        cutoffs.len() > 0 && k1 < cutoffs[0].0 ==> num_cutoffs_at_most(cutoffs, k1) == 0,
        cutoffs.len() > 0 && k1 >= cutoffs[cutoffs.len() - 1].0 ==> num_cutoffs_at_most(cutoffs, k1)
            == num_ranks - 1,
{
    broadcast use Seq::lemma_filter_len;

    let pred = |c: PeanoHilbertKey| c.0 <= k1;
    lemma_count_at_most_monotone(cutoffs, k1, k2);
    if cutoffs.len() > 0 && k1 < cutoffs[0].0 {
        assert forall|i: int| 0 <= i < cutoffs.len() implies !pred(#[trigger] cutoffs[i]) by {
            assert(cutoffs[0].0 <= cutoffs[i].0);
        }
        cutoffs.lemma_all_neg_filter_empty(pred);
    }
    if cutoffs.len() > 0 && k1 >= cutoffs[cutoffs.len() - 1].0 {
        assert forall|i: int| 0 <= i < cutoffs.len() implies pred(#[trigger] cutoffs[i]) by {
            assert(cutoffs[i].0 <= cutoffs[cutoffs.len() - 1].0);
        }
        crate::segment::lemma_filter_all_true(cutoffs, pred);
    }
}

} // verus!
