//! Histogram construction over a rank's locally sorted keys.
//!
//! A segment is a half-open key interval `[start, end)` together with the
//! exact number of local records whose key falls in the interval.  The
//! builder starts from one segment spanning all local keys and recursively
//! bisects it at the arithmetic midpoint until every emitted segment is
//! small enough or can no longer be split.

use vstd::prelude::*;

use crate::peano_hilbert::PeanoHilbertKey;
use crate::peano_hilbert::NUM_KEYS;

verus! {

/// One local record: a key and an opaque handle to the payload it stands
/// for.  Rebuilt fresh each epoch and sorted by key.
#[derive(Clone, Copy, Debug, PartialEq, Eq, Structural)]
pub struct ParticleData {
    pub key: PeanoHilbertKey,
    pub entity: u64,
}

/// A half-open interval `[start, end)` of keys with the exact count of
/// local sorted records whose key lies inside.  The one exception is the
/// degenerate segment of a single-record input, where `start == end` and
/// the count is one.
#[derive(Clone, Copy, Debug, PartialEq, Eq, Structural)]
pub struct Segment {
    pub start: PeanoHilbertKey,
    pub end: PeanoHilbertKey,
    pub num_particles: usize,
}

/// Keys appear in non-decreasing order.
pub open spec fn sorted(particles: Seq<ParticleData>) -> bool {
    forall|i: int, j: int|
        0 <= i <= j < particles.len() ==> (#[trigger] particles[i]).key.0
            <= (#[trigger] particles[j]).key.0
}

/// Keys appear in strictly increasing order (no duplicates).
pub open spec fn strictly_sorted(particles: Seq<ParticleData>) -> bool {
    forall|i: int, j: int|
        0 <= i < j < particles.len() ==> (#[trigger] particles[i]).key.0
            < (#[trigger] particles[j]).key.0
}

/// Every key stays below the number of representable keys, so that the key
/// one past the last record exists.
pub open spec fn keys_in_domain(particles: Seq<ParticleData>) -> bool {
    forall|i: int|
        0 <= i < particles.len() ==> (#[trigger] particles[i]).key.0 < NUM_KEYS
}

/// How many records have a key in `[lo, hi)`.
pub open spec fn count_in_range(particles: Seq<ParticleData>, lo: int, hi: int) -> nat {
    particles.filter(|p: ParticleData| lo <= p.key.0 < hi).len()
}

/// Total record count across a list of segments.
pub open spec fn sum_counts(segments: Seq<Segment>) -> nat
    decreases segments.len(),
{
    if segments.len() == 0 {
        0
    } else {
        (sum_counts(segments.drop_last()) + segments.last().num_particles) as nat
    }
}

/// A segment `seg` emitted for the range `[lo, hi)` of `particles`: a
/// non-empty exact count over a subinterval, left unsplit only when small
/// enough or at most one key wide.
pub open spec fn emitted_segment(
    particles: Seq<ParticleData>,
    seg: Segment,
    lo: int,
    hi: int,
    desired: int,
) -> bool {
    &&& lo <= seg.start.0 <= seg.end.0 <= hi
    &&& seg.num_particles == count_in_range(particles, seg.start.0 as int, seg.end.0 as int)
    &&& seg.num_particles > 0
    &&& (seg.num_particles <= desired || seg.end.0 - seg.start.0 <= 1)
}

/// The defining equation of `sum_counts`, restated for callers.
pub proof fn lemma_sum_counts_unfold(segments: Seq<Segment>)
    ensures
        segments.len() == 0 ==> sum_counts(segments) == 0,
        segments.len() > 0 ==> sum_counts(segments) == sum_counts(segments.drop_last())
            + segments.last().num_particles,
    decreases segments.len(),
{
    if segments.len() > 0 {
        lemma_sum_counts_unfold(segments.drop_last());
    }
}

/// Summing is additive over concatenation.
pub proof fn lemma_sum_counts_add(a: Seq<Segment>, b: Seq<Segment>)
    ensures
        sum_counts(a + b) == sum_counts(a) + sum_counts(b),
    decreases b.len(),
{
    if b.len() == 0 {
        assert(a + b =~= a);
    } else {
        lemma_sum_counts_add(a, b.drop_last());
        assert((a + b).drop_last() =~= a + b.drop_last());
        assert((a + b).last() == b.last());
    }
}

/// A filter keeps everything when the predicate holds everywhere.
pub proof fn lemma_filter_all_true<A>(s: Seq<A>, pred: spec_fn(A) -> bool)
    requires
        forall|i: int| 0 <= i < s.len() ==> pred(#[trigger] s[i]),
    ensures
        s.filter(pred) == s,
    decreases s.len(),
{
    broadcast use Seq::lemma_filter_push;

    if s.len() != 0 {
        lemma_filter_all_true(s.drop_last(), pred);
        assert(s.drop_last().push(s.last()) =~= s);
    }
}

/// For a sorted sequence whose indices below `i` hold keys under `lo`,
/// between `i` and `j` keys inside `[lo, hi)`, and from `j` on keys at or
/// above `hi`, the in-range count is exactly `j - i`.
proof fn lemma_count_by_bounds(particles: Seq<ParticleData>, lo: int, hi: int, i: int, j: int)
    requires
        0 <= i <= j <= particles.len(),
        forall|idx: int| 0 <= idx < i ==> (#[trigger] particles[idx]).key.0 < lo,
        forall|idx: int| i <= idx < j ==> lo <= (#[trigger] particles[idx]).key.0 < hi,
        forall|idx: int| j <= idx < particles.len() ==> (#[trigger] particles[idx]).key.0 >= hi,
    ensures
        count_in_range(particles, lo, hi) == j - i,
{
    broadcast use Seq::filter_distributes_over_add;

    let pred = |p: ParticleData| lo <= p.key.0 < hi;
    let low = particles.subrange(0, i);
    let mid = particles.subrange(i, j);
    let high = particles.subrange(j, particles.len() as int);
    assert(particles =~= (low + mid) + high);
    low.lemma_all_neg_filter_empty(pred);
    high.lemma_all_neg_filter_empty(pred);
    lemma_filter_all_true(mid, pred);
    assert(particles.filter(pred).len() == low.filter(pred).len() + mid.filter(pred).len()
        + high.filter(pred).len());
}

/// A count splits at any midpoint of its interval.
proof fn lemma_count_split(particles: Seq<ParticleData>, lo: int, mid: int, hi: int)
    requires
        lo <= mid <= hi,
    ensures
        count_in_range(particles, lo, hi) == count_in_range(particles, lo, mid) + count_in_range(
            particles,
            mid,
            hi,
        ),
    decreases particles.len(),
{
    broadcast use Seq::lemma_filter_push;

    if particles.len() != 0 {
        let rest = particles.drop_last();
        lemma_count_split(rest, lo, mid, hi);
        assert(rest.push(particles.last()) =~= particles);
    }
}

/// With strictly increasing keys, an interval one key wide holds at most
/// one record.
proof fn lemma_strict_count_narrow(particles: Seq<ParticleData>, lo: int, hi: int)
    requires
        strictly_sorted(particles),
        hi - lo <= 1,
    ensures
        count_in_range(particles, lo, hi) <= 1,
    decreases particles.len(),
{
    broadcast use Seq::lemma_filter_push;

    let pred = |p: ParticleData| lo <= p.key.0 < hi;
    if particles.len() != 0 {
        let rest = particles.drop_last();
        assert(rest.push(particles.last()) =~= particles);
        if pred(particles.last()) {
            // everything before the last record has a strictly smaller key,
            // and the interval has room for only one value
            assert forall|i: int| 0 <= i < rest.len() implies !pred(#[trigger] rest[i]) by {
                assert(particles[i].key.0 < particles[particles.len() - 1].key.0);
            }
            rest.lemma_all_neg_filter_empty(pred);
        } else {
            lemma_strict_count_narrow(rest, lo, hi);
        }
    }
}

/// The segments the bisection emits for the range `[lo, hi)` of the
/// sorted records: the range is halved at the arithmetic midpoint while it
/// holds more than `desired` records and is wider than one key, and every
/// non-empty leaf is emitted, left to right.
pub open spec fn split_emit(particles: Seq<ParticleData>, lo: u64, hi: u64, desired: int) -> Seq<
    Segment,
>
    decreases hi - lo,
{
    let count = count_in_range(particles, lo as int, hi as int);
    if count > desired && hi - lo >= 2 {
        let half: u64 = ((lo + hi) / 2) as u64;
        split_emit(particles, lo, half, desired) + split_emit(particles, half, hi, desired)
    } else if count > 0 {
        seq![
            Segment {
                start: PeanoHilbertKey(lo),
                end: PeanoHilbertKey(hi),
                num_particles: count as usize,
            },
        ]
    } else {
        Seq::empty()
    }
}



/// The defining equation of `split_emit`, restated for callers.
pub proof fn lemma_split_emit_unfold(particles: Seq<ParticleData>, lo: u64, hi: u64, desired: int)
    requires
        desired >= 0,
    ensures
        ({
            let count = count_in_range(particles, lo as int, hi as int);
            &&& (count > desired && hi - lo >= 2) ==> split_emit(particles, lo, hi, desired)
                == split_emit(particles, lo, ((lo + hi) / 2) as u64, desired) + split_emit(
                particles,
                ((lo + hi) / 2) as u64,
                hi,
                desired,
            )
            &&& (!(count > desired && hi - lo >= 2) && count > 0) ==> split_emit(
                particles,
                lo,
                hi,
                desired,
            ) =~= seq![
                Segment {
                    start: PeanoHilbertKey(lo),
                    end: PeanoHilbertKey(hi),
                    num_particles: count as usize,
                },
            ]
            &&& (count == 0) ==> split_emit(particles, lo, hi, desired) =~= Seq::<Segment>::empty()
        }),
    decreases hi - lo,
{
    let count = count_in_range(particles, lo as int, hi as int);
    if count > desired && hi - lo >= 2 {
        let half: u64 = ((lo + hi) / 2) as u64;
        lemma_split_emit_unfold(particles, lo, half, desired);
        lemma_split_emit_unfold(particles, half, hi, desired);
    }
}

/// Law: the bisection partitions its range — every emitted segment lies
/// inside `[lo, hi]`, and the emitted segments are pairwise disjoint and
/// in ascending key order.
pub proof fn lemma_split_emit_ordered(particles: Seq<ParticleData>, lo: u64, hi: u64, desired: int)
    requires
        lo <= hi,
        desired >= 0,
    ensures
        ({
            let segs = split_emit(particles, lo, hi, desired);
            &&& forall|k: int|
                0 <= k < segs.len() ==> lo <= (#[trigger] segs[k]).start.0 <= segs[k].end.0 <= hi
            &&& forall|k: int|
                0 <= k < segs.len() - 1 ==> (#[trigger] segs[k]).end.0 <= segs[k + 1].start.0
        }),
    decreases hi - lo,
{
    lemma_split_emit_unfold(particles, lo, hi, desired);
    let count = count_in_range(particles, lo as int, hi as int);
    if count > desired && hi - lo >= 2 {
        let half: u64 = ((lo + hi) / 2) as u64;
        lemma_split_emit_ordered(particles, lo, half, desired);
        lemma_split_emit_ordered(particles, half, hi, desired);
        let left = split_emit(particles, lo, half, desired);
        let right = split_emit(particles, half, hi, desired);
        let segs = split_emit(particles, lo, hi, desired);
        assert forall|k: int|
            0 <= k < segs.len() implies lo <= (#[trigger] segs[k]).start.0 <= segs[k].end.0
            <= hi by {
            if k < left.len() {
                assert(segs[k] == left[k]);
            } else {
                assert(segs[k] == right[k - left.len()]);
            }
        }
        assert forall|k: int|
            0 <= k < segs.len() - 1 implies (#[trigger] segs[k]).end.0 <= segs[k + 1].start.0 by {
            if k + 1 < left.len() {
                assert(segs[k] == left[k] && segs[k + 1] == left[k + 1]);
            } else if k + 1 == left.len() {
                assert(segs[k] == left[k] && segs[k + 1] == right[0]);
            } else {
                assert(segs[k] == right[k - left.len()] && segs[k + 1] == right[k + 1
                    - left.len()]);
            }
        }
    }
}

/// First index whose key is at least `key`; all earlier records are
/// strictly below it.
fn lower_bound(particles: &Vec<ParticleData>, key: u64) -> (r: usize)
    requires
        sorted(particles@),
    ensures
        r <= particles@.len(),
        forall|i: int| 0 <= i < r ==> (#[trigger] particles@[i]).key.0 < key,
        forall|i: int| r <= i < particles@.len() ==> (#[trigger] particles@[i]).key.0 >= key,
{
    let mut lo: usize = 0;
    let mut hi: usize = particles.len();
    while lo < hi
        invariant
            lo <= hi <= particles@.len(),
            sorted(particles@),
            forall|i: int| 0 <= i < lo ==> (#[trigger] particles@[i]).key.0 < key,
            forall|i: int| hi <= i < particles@.len() ==> (#[trigger] particles@[i]).key.0 >= key,
        decreases hi - lo,
    {
        let mid = lo + (hi - lo) / 2;
        if particles[mid].key.0 < key {
            lo = mid + 1;
        } else {
            hi = mid;
        }
    }
    lo
}

/// Exact number of records whose key falls in `[start, end)`, by a pair of
/// binary searches over the sorted records.
pub fn num_contained_particles(
    particles: &Vec<ParticleData>,
    start: PeanoHilbertKey,
    end: PeanoHilbertKey,
) -> (r: usize)
    requires
        sorted(particles@),
        start.0 <= end.0,
    ensures
        r == count_in_range(particles@, start.0 as int, end.0 as int),
{
    let start_index = lower_bound(particles, start.0);
    let end_index = lower_bound(particles, end.0);
    proof {
        if end_index < start_index {
            assert(particles@[end_index as int].key.0 < start.0);
            assert(particles@[end_index as int].key.0 >= end.0);
            assert(false);
        }
        lemma_count_by_bounds(
            particles@,
            start.0 as int,
            end.0 as int,
            start_index as int,
            end_index as int,
        );
    }
    end_index - start_index
}

impl Segment {
    /// Segment over `[start, end)` with its exact record count.
    pub fn new(particles: &Vec<ParticleData>, start: PeanoHilbertKey, end: PeanoHilbertKey) -> (r:
        Self)
        requires
            sorted(particles@),
            start.0 <= end.0,
        ensures
            r.start == start,
            r.end == end,
            r.num_particles == count_in_range(particles@, start.0 as int, end.0 as int),
    {
        Self { start, end, num_particles: num_contained_particles(particles, start, end) }
    }

    /// Emits this segment, or recursively bisects it at the arithmetic
    /// midpoint while it holds more than `desired_segment_size` records and
    /// is wider than one key.  Empty segments are dropped.
    #[verifier::rlimit(100)]
    fn split_into(
        self,
        segments: &mut Vec<Segment>,
        particles: &Vec<ParticleData>,
        desired_segment_size: usize,
    )
        requires
            sorted(particles@),
            self.start.0 <= self.end.0 <= NUM_KEYS,
            self.num_particles == count_in_range(particles@, self.start.0 as int, self.end.0 as int),
        ensures
            final(segments)@.len() >= old(segments)@.len(),
            final(segments)@.subrange(0, old(segments)@.len() as int) == old(segments)@,
            final(segments)@.skip(old(segments)@.len() as int) == split_emit(
                particles@,
                self.start.0,
                self.end.0,
                desired_segment_size as int,
            ),
            sum_counts(final(segments)@.skip(old(segments)@.len() as int)) == self.num_particles,
            forall|k: int|
                old(segments)@.len() <= k < final(segments)@.len() ==> emitted_segment(
                    particles@,
                    #[trigger] final(segments)@[k],
                    self.start.0 as int,
                    self.end.0 as int,
                    desired_segment_size as int,
                ),
            forall|k: int|
                old(segments)@.len() <= k < final(segments)@.len() - 1 ==> (
                #[trigger] final(segments)@[k]).end.0 <= final(segments)@[k + 1].start.0,
        decreases self.end.0 - self.start.0,
    {
        let ghost orig = segments@;
        if self.num_particles > desired_segment_size && self.end.0 - self.start.0 >= 2 {
            let half = PeanoHilbertKey((self.end.0 + self.start.0) / 2);
            let left = Segment::new(particles, self.start, half);
            let right = Segment::new(particles, half, self.end);
            proof {
                lemma_count_split(
                    particles@,
                    self.start.0 as int,
                    half.0 as int,
                    self.end.0 as int,
                );
            }
            left.split_into(segments, particles, desired_segment_size);
            let ghost after_left = segments@;
            right.split_into(segments, particles, desired_segment_size);
            proof {
                let n0 = orig.len() as int;
                let n1 = after_left.len() as int;
                assert(final(segments)@.subrange(0, n0) =~= orig);
                let part_left = after_left.skip(n0);
                let part_right = final(segments)@.skip(n1);
                assert(final(segments)@.skip(n0) =~= part_left + part_right);
                lemma_sum_counts_add(part_left, part_right);
                // the two recursive emissions assemble the whole range's
                lemma_split_emit_unfold(
                    particles@,
                    self.start.0,
                    self.end.0,
                    desired_segment_size as int,
                );
                assert(half.0 == ((self.start.0 + self.end.0) / 2) as u64);
                assert(final(segments)@.skip(n0) == split_emit(
                    particles@,
                    self.start.0,
                    self.end.0,
                    desired_segment_size as int,
                ));
                lemma_split_emit_ordered(
                    particles@,
                    self.start.0,
                    self.end.0,
                    desired_segment_size as int,
                );
                assert forall|k: int|
                    n0 <= k < final(segments)@.len() - 1 implies (
                #[trigger] final(segments)@[k]).end.0 <= final(segments)@[k + 1].start.0 by {
                    let emitted = final(segments)@.skip(n0);
                    assert(final(segments)@[k] == emitted[k - n0]);
                    assert(final(segments)@[k + 1] == emitted[k + 1 - n0]);
                }
                assert forall|k: int| n0 <= k < final(segments)@.len() implies emitted_segment(
                    particles@,
                    #[trigger] final(segments)@[k],
                    self.start.0 as int,
                    self.end.0 as int,
                    desired_segment_size as int,
                ) by {
                    if k < n1 {
                        assert(final(segments)@.subrange(0, n1)[k] == final(segments)@[k]);
                        assert(emitted_segment(
                            particles@,
                            after_left[k],
                            self.start.0 as int,
                            half.0 as int,
                            desired_segment_size as int,
                        ));
                    } else {
                        assert(emitted_segment(
                            particles@,
                            final(segments)@[k],
                            half.0 as int,
                            self.end.0 as int,
                            desired_segment_size as int,
                        ));
                    }
                }
            }
        } else if self.num_particles > 0 {
            segments.push(self);
            proof {
                assert(final(segments)@.skip(orig.len() as int) =~= seq![self]);
                assert(sum_counts(seq![self]) == self.num_particles) by {
                    lemma_sum_counts_unfold(seq![self]);
                    lemma_sum_counts_unfold(seq![self].drop_last());
                    assert(seq![self].drop_last() =~= Seq::<Segment>::empty());
                }
                assert(final(segments)@.subrange(0, orig.len() as int) =~= orig);
                lemma_split_emit_unfold(
                    particles@,
                    self.start.0,
                    self.end.0,
                    desired_segment_size as int,
                );
                assert(PeanoHilbertKey(self.start.0) == self.start);
                assert(PeanoHilbertKey(self.end.0) == self.end);
                assert(seq![self] =~= split_emit(
                    particles@,
                    self.start.0,
                    self.end.0,
                    desired_segment_size as int,
                ));
            }
        } else {
            proof {
                assert(final(segments)@.skip(orig.len() as int) =~= Seq::<Segment>::empty());
                lemma_sum_counts_unfold(final(segments)@.skip(orig.len() as int));
                assert(final(segments)@.subrange(0, orig.len() as int) =~= orig);
                lemma_split_emit_unfold(
                    particles@,
                    self.start.0,
                    self.end.0,
                    desired_segment_size as int,
                );
            }
        }
    }
}

/// The full segment list of a rank's sorted records, as a function of the
/// records: nothing for an empty input, one degenerate segment for a
/// single record, and the bisection of one segment spanning all keys
/// otherwise.
pub open spec fn segments_of(particles: Seq<ParticleData>, desired: int) -> Seq<Segment> {
    if particles.len() == 0 {
        Seq::empty()
    } else if particles.len() == 1 {
        seq![Segment { start: particles[0].key, end: particles[0].key, num_particles: 1 }]
    } else {
        split_emit(
            particles,
            particles[0].key.0,
            (particles.last().key.0 + 1) as u64,
            desired,
        )
    }
}

/// Builds the segment list for a rank's sorted records: empty input yields
/// no segments, a single record yields one degenerate segment, and anything
/// larger is recursively bisected from one segment spanning all keys.  The
/// result is exactly `segments_of`, so identical records always yield the
/// identical list, and the emitted segments are pairwise disjoint, in
/// ascending key order.
pub fn get_segments(particles: &Vec<ParticleData>, desired_segment_size: usize) -> (segments: Vec<
    Segment,
>)
    requires
        sorted(particles@),
        keys_in_domain(particles@),
    ensures
        segments@ == segments_of(particles@, desired_segment_size as int),
        forall|k: int|
            0 <= k < segments@.len() - 1 ==> (#[trigger] segments@[k]).end.0 <= segments@[k
                + 1].start.0,
        sum_counts(segments@) == particles@.len(),
        particles@.len() == 0 ==> segments@.len() == 0,
        particles@.len() == 1 ==> segments@.len() == 1 && segments@[0].start
            == particles@[0].key && segments@[0].end == particles@[0].key
            && segments@[0].num_particles == 1,
        particles@.len() >= 2 ==> forall|k: int|
            0 <= k < segments@.len() ==> emitted_segment(
                particles@,
                #[trigger] segments@[k],
                particles@[0].key.0 as int,
                particles@[particles@.len() - 1].key.0 + 1,
                desired_segment_size as int,
            ),
        (desired_segment_size >= 1 && strictly_sorted(particles@)) ==> forall|k: int|
            0 <= k < segments@.len() ==> (#[trigger] segments@[k]).num_particles
                <= desired_segment_size,
{
    if particles.len() == 0 {
        let segments: Vec<Segment> = Vec::new();
        proof {
            lemma_sum_counts_unfold(segments@);
            assert(segments@ =~= segments_of(particles@, desired_segment_size as int));
        }
        return segments;
    }
    if particles.len() == 1 {
        let key = particles[0].key;
        let mut segments: Vec<Segment> = Vec::new();
        segments.push(Segment { start: key, end: key, num_particles: 1 });
        proof {
            assert(sum_counts(segments@) == 1) by {
                lemma_sum_counts_unfold(segments@);
                lemma_sum_counts_unfold(segments@.drop_last());
                assert(segments@.drop_last() =~= Seq::<Segment>::empty());
            }
            assert(segments@ =~= segments_of(particles@, desired_segment_size as int));
        }
        return segments;
    }
    let first = particles[0].key;
    let last = particles[particles.len() - 1].key;
    let whole = Segment { start: first, end: last.next(), num_particles: particles.len() };
    proof {
        lemma_filter_all_true(
            particles@,
            |p: ParticleData| first.0 <= p.key.0 < last.0 + 1,
        );
    }
    let mut segments: Vec<Segment> = Vec::new();
    whole.split_into(&mut segments, particles, desired_segment_size);
    proof {
        assert(segments@.skip(0) =~= segments@);
        assert(whole.end.0 == (particles@.last().key.0 + 1) as u64);
        assert(segments@ == segments_of(particles@, desired_segment_size as int));
        if desired_segment_size >= 1 && strictly_sorted(particles@) {
            assert forall|k: int| 0 <= k < segments@.len() implies (
            #[trigger] segments@[k]).num_particles <= desired_segment_size by {
                let seg = segments@[k];
                if seg.num_particles > desired_segment_size {
                    lemma_strict_count_narrow(particles@, seg.start.0 as int, seg.end.0 as int);
                }
            }
        }
    }
    segments
}

} // verus!
