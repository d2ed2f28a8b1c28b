use vstd::prelude::*;
use crate::animation::AnimationPoint;
use crate::interpolate::default_interpolation;
use crate::interpolate::Interpolation;
use crate::interpolate::VectorPoint;
use crate::math::Vec3;

verus! {

/// Channel point lists are kept strictly increasing in time.
pub open spec fn strictly_increasing_times(s: Seq<VectorPoint>) -> bool {
    forall|i: int, j: int| 0 <= i < j < s.len() ==> s[i].time < s[j].time
}

/// A strictly ascending sequence of breakpoint times.
pub open spec fn strictly_increasing(s: Seq<u32>) -> bool {
    forall|i: int, j: int| 0 <= i < j < s.len() ==> s[i] < s[j]
}

/// Whether some channel point is authored exactly at time `t`.
pub open spec fn has_time(s: Seq<VectorPoint>, t: u32) -> bool {
    exists|i: int| 0 <= i < s.len() && s[i].time == t
}

/// The breakpoint set of a merge: zero, the animation length, and every
/// timestamp authored in any of the three channels.
pub open spec fn is_breakpoint(
    length: u32,
    position: Seq<VectorPoint>,
    rotation: Seq<VectorPoint>,
    scale: Seq<VectorPoint>,
    t: u32,
) -> bool {
    ||| t == 0
    ||| t == length
    ||| has_time(position, t)
    ||| has_time(rotation, t)
    ||| has_time(scale, t)
}

/// Inserts a time into a strictly ascending list, keeping it ascending;
/// a time already present is left alone.
fn insert_sorted_unique(v: &mut Vec<u32>, t: u32)
    requires
        strictly_increasing(old(v)@),
    ensures
        strictly_increasing(final(v)@),
        forall|x: u32| final(v)@.contains(x) <==> (old(v)@.contains(x) || x == t),
{
    let mut i: usize = 0;
    while i < v.len() && v[i] < t
        invariant
            strictly_increasing(v@),
            v == old(v),
            i <= v@.len(),
            forall|j: int| 0 <= j < i ==> v@[j] < t,
        decreases v@.len() - i,
    {
        i += 1;
    }
    if i < v.len() && v[i] == t {
        proof {
            assert(v@.contains(t)) by {
                assert(v@[i as int] == t);
            }
        }
        return ;
    }
    v.insert(i, t);
    proof {
        let s0 = old(v)@;
        let s1 = v@;
        assert(s1 == s0.insert(i as int, t));
        assert forall|p: int, q: int| 0 <= p < q < s1.len() implies s1[p] < s1[q] by {
            if q < i {
                assert(s1[p] == s0[p] && s1[q] == s0[q]);
            } else if p > i {
                assert(s1[p] == s0[p - 1] && s1[q] == s0[q - 1]);
            } else if p < i && q == i {
                assert(s1[p] == s0[p] && s1[q] == t);
            } else if p == i {
                assert(s1[p] == t && s1[q] == s0[q - 1]);
                assert(q - 1 >= i);
                if s0[q - 1] == t {
                    assert(false);
                } else if s0[q - 1] < t {
                    assert(i < s0.len());
                    if q - 1 > i {
                        assert(s0[i as int] < s0[q - 1]);
                    }
                    assert(false);
                }
            } else {
                assert(p < i && q > i);
                assert(s1[p] == s0[p] && s1[q] == s0[q - 1]);
                assert(s0[p] < t);
                assert(q - 1 >= i);
                if s0[q - 1] < t {
                    if q - 1 > i {
                        assert(s0[i as int] < s0[q - 1]);
                    }
                    assert(false);
                }
                if s0[q - 1] == t {
                    assert(false);
                }
            }
        }
        assert forall|x: u32| s1.contains(x) <==> (s0.contains(x) || x == t) by {
            if s1.contains(x) {
                let k = choose|k: int| 0 <= k < s1.len() && s1[k] == x;
                if k < i {
                    assert(s0[k] == x);
                } else if k > i {
                    assert(s0[k - 1] == x);
                } else {
                    assert(x == t);
                }
            }
            if s0.contains(x) {
                let k = choose|k: int| 0 <= k < s0.len() && s0[k] == x;
                if k < i {
                    assert(s1[k] == x);
                } else {
                    assert(s1[k + 1] == x);
                }
            }
            if x == t {
                assert(s1[i as int] == t);
            }
        }
    }
}

/// The times of the first `k` points of a channel.
pub open spec fn has_time_upto(s: Seq<VectorPoint>, k: int, t: u32) -> bool {
    exists|i: int| 0 <= i < k && s[i].time == t
}

/// Builds the ascending breakpoint list of a merge: exactly the times of
/// [`is_breakpoint`], each once, in ascending order.
pub fn breakpoints(
    length: u32,
    position: &Vec<VectorPoint>,
    rotation: &Vec<VectorPoint>,
    scale: &Vec<VectorPoint>,
) -> (r: Vec<u32>)
    ensures
        strictly_increasing(r@),
        forall|x: u32|
            r@.contains(x) <==> is_breakpoint(length, position@, rotation@, scale@, x),
        r@.len() >= 1,
{
    let mut v: Vec<u32> = Vec::new();
    proof {
        assert(v@.len() == 0);
    }
    insert_sorted_unique(&mut v, 0);
    insert_sorted_unique(&mut v, length);
    let mut k: usize = 0;
    while k < position.len()
        invariant
            strictly_increasing(v@),
            k <= position@.len(),
            forall|x: u32| v@.contains(x) <==> (x == 0 || x == length || has_time_upto(position@, k as int, x)),
        decreases position@.len() - k,
    {
        insert_sorted_unique(&mut v, position[k].time);
        k += 1;
    }
    let mut k: usize = 0;
    while k < rotation.len()
        invariant
            strictly_increasing(v@),
            k <= rotation@.len(),
            forall|x: u32| v@.contains(x) <==> (x == 0 || x == length || has_time(position@, x)
                || has_time_upto(rotation@, k as int, x)),
        decreases rotation@.len() - k,
    {
        insert_sorted_unique(&mut v, rotation[k].time);
        k += 1;
    }
    let mut k: usize = 0;
    while k < scale.len()
        invariant
            strictly_increasing(v@),
            k <= scale@.len(),
            forall|x: u32| v@.contains(x) <==> (x == 0 || x == length || has_time(position@, x)
                || has_time(rotation@, x) || has_time_upto(scale@, k as int, x)),
        decreases scale@.len() - k,
    {
        insert_sorted_unique(&mut v, scale[k].time);
        k += 1;
    }
    proof {
        assert(is_breakpoint(length, position@, rotation@, scale@, 0u32));
        assert(v@.contains(0u32));
        assert(v@.len() >= 1);
    }
    v
}

/// The window index the merge scan reaches for breakpoint `tp`, scanning
/// forward from `j`: the first index at or past `j` whose time is at least
/// `tp`, capped at the final index.
pub open spec fn next_index_from(vectors: Seq<VectorPoint>, j: int, tp: u32) -> int
    recommends
        0 <= j < vectors.len(),
    decreases vectors.len() - j,
{
    if j >= vectors.len() - 1 {
        vectors.len() - 1
    } else if vectors[j].time >= tp {
        j
    } else {
        next_index_from(vectors, j + 1, tp)
    }
}

/// The window index the merge scan reaches for breakpoint `tp`.
pub open spec fn next_index(vectors: Seq<VectorPoint>, tp: u32) -> int {
    next_index_from(vectors, 0, tp)
}

/// Everything before the reached window index is authored strictly before
/// `tp`, and the reached point is at or past `tp` unless the scan ran off
/// the end of the channel.
proof fn lemma_next_index_from_char(vectors: Seq<VectorPoint>, j: int, tp: u32)
    requires
        0 <= j < vectors.len(),
    ensures
        ({
            let i = next_index_from(vectors, j, tp);
            &&& j <= i < vectors.len()
            &&& (i == vectors.len() - 1 || vectors[i].time >= tp)
            &&& forall|m: int| j <= m < i ==> vectors[m].time < tp
        }),
    decreases vectors.len() - j,
{
    if j < vectors.len() - 1 && vectors[j].time < tp {
        lemma_next_index_from_char(vectors, j + 1, tp);
    }
}

/// Any index with the scan's stopping shape is the index the scan reaches.
proof fn lemma_next_index_from_unique(vectors: Seq<VectorPoint>, j: int, tp: u32, i: int)
    requires
        0 <= j <= i < vectors.len(),
        i == vectors.len() - 1 || vectors[i].time >= tp,
        forall|m: int| j <= m < i ==> vectors[m].time < tp,
    ensures
        i == next_index_from(vectors, j, tp),
    decreases i - j,
{
    if j < i {
        lemma_next_index_from_unique(vectors, j + 1, tp, i);
    }
}

/// What resampling a channel of at least two points yields at breakpoint
/// `tp`: the held last sample past the end, an authored point verbatim at
/// its own time, and otherwise the previous point's strategy interpolating
/// towards the reached point.
#[verifier::opaque]
pub open spec fn sample_at(vectors: Seq<VectorPoint>, tp: u32) -> VectorPoint
    recommends
        vectors.len() >= 2,
{
    let last = vectors[vectors.len() - 1];
    if tp > last.time {
        VectorPoint { vector: last.vector, time: tp, interpolation: last.interpolation }
    } else {
        let i = next_index(vectors, tp);
        if vectors[i].time == tp {
            vectors[i]
        } else {
            let strat = if i > 0 {
                vectors[i - 1].interpolation
            } else {
                Interpolation::Linear
            };
            strat.spec_interpolate(vectors, i, tp)
        }
    }
}

/// What resampling a channel yields at breakpoint `tp`: an empty channel
/// gives the zero vector with the default strategy, a single point gives
/// that point's vector, and a longer channel follows [`sample_at`].
pub open spec fn resampled_at(vectors: Seq<VectorPoint>, tp: u32) -> VectorPoint {
    if vectors.len() == 0 {
        VectorPoint { vector: Vec3 { x: 0, y: 0, z: 0 }, time: tp, interpolation: Interpolation::Linear }
    } else if vectors.len() == 1 {
        VectorPoint { vector: vectors[0].vector, time: tp, interpolation: vectors[0].interpolation }
    } else {
        sample_at(vectors, tp)
    }
}

/// One resampled point per breakpoint.
pub open spec fn pointwise(vectors: Seq<VectorPoint>, times: Seq<u32>) -> Seq<VectorPoint> {
    Seq::new(times.len(), |k: int| resampled_at(vectors, times[k]))
}

/// The full result of resampling a channel onto a breakpoint list: one
/// point per breakpoint and, should the breakpoints run out before the
/// channel's final authored sample, the remaining authored points verbatim
/// (a defensive fallback for malformed breakpoint lists).
pub open spec fn resample(vectors: Seq<VectorPoint>, times: Seq<u32>) -> Seq<VectorPoint> {
    if vectors.len() < 2 {
        pointwise(vectors, times)
    } else {
        let i_fin = if times.len() == 0 {
            0int
        } else {
            next_index(vectors, times[times.len() - 1])
        };
        if vectors[i_fin].time < vectors[vectors.len() - 1].time {
            pointwise(vectors, times) + vectors.subrange(i_fin, vectors.len() as int)
        } else {
            pointwise(vectors, times)
        }
    }
}

/// Resamples one channel onto every breakpoint, advancing a window of
/// neighboring authored points monotonically with the ascending breakpoints.
pub fn put_point(vectors: &Vec<VectorPoint>, points: &Vec<u32>) -> (r: Vec<VectorPoint>)
    requires
        strictly_increasing_times(vectors@),
        strictly_increasing(points@),
    ensures
        r@ == resample(vectors@, points@),
{
    let mut new_points: Vec<VectorPoint> = Vec::new();
    if vectors.len() < 2 {
        let first = if vectors.len() > 0 {
            vectors[0]
        } else {
            VectorPoint::empty()
        };
        let mut k: usize = 0;
        while k < points.len()
            invariant
                k <= points@.len(),
                vectors@.len() < 2,
                first == (if vectors@.len() > 0 {
                    vectors@[0]
                } else {
                    VectorPoint::empty_spec()
                }),
                new_points@.len() == k,
                forall|m: int| 0 <= m < k ==> new_points@[m] == resampled_at(vectors@, points@[m]),
            decreases points@.len() - k,
        {
            new_points.push(VectorPoint::new(first.vector, points[k], first.interpolation));
            k += 1;
        }
        proof {
            assert(new_points@ =~= resample(vectors@, points@));
        }
        return new_points;
    }
    let last_idx: usize = vectors.len() - 1;
    let last = vectors[last_idx];
    let mut i: usize = 0;
    let mut k: usize = 0;
    while k < points.len()
        invariant
            strictly_increasing_times(vectors@),
            strictly_increasing(points@),
            vectors@.len() >= 2,
            last_idx == vectors@.len() - 1,
            last == vectors@[last_idx as int],
            k <= points@.len(),
            i < vectors@.len(),
            k == 0 ==> i == 0,
            k > 0 ==> i as int == next_index(vectors@, points@[k as int - 1]),
            new_points@.len() == k,
            forall|m: int| 0 <= m < k ==> new_points@[m] == resampled_at(vectors@, points@[m]),
        decreases points@.len() - k,
    {
        let tp = points[k];
        proof {
            if k > 0 {
                lemma_next_index_from_char(vectors@, 0, points@[k as int - 1]);
            }
        }
        while i < last_idx && vectors[i].time < tp
            invariant
                strictly_increasing_times(vectors@),
                vectors@.len() >= 2,
                last_idx == vectors@.len() - 1,
                i <= last_idx,
                k < points@.len(),
                tp == points@[k as int],
                forall|m: int| 0 <= m < i ==> vectors@[m].time < tp,
            decreases last_idx - i,
        {
            i += 1;
        }
        proof {
            lemma_next_index_from_unique(vectors@, 0, tp, i as int);
        }
        if tp > last.time {
            new_points.push(VectorPoint::new(last.vector, tp, last.interpolation));
        } else if vectors[i].time == tp {
            new_points.push(vectors[i]);
        } else {
            let strat = if i > 0 {
                vectors[i - 1].interpolation
            } else {
                default_interpolation()
            };
            let p = strat.interpolate(vectors, i, tp);
            new_points.push(p);
        }
        proof {
            reveal(sample_at);
            assert(new_points@[k as int] == resampled_at(vectors@, tp));
        }
        k += 1;
    }
    proof {
        let i_fin = if points@.len() == 0 {
            0int
        } else {
            next_index(vectors@, points@[points@.len() - 1])
        };
        assert(i as int == i_fin);
    }
    if vectors[i].time < last.time {
        let ghost start = i as int;
        let mut j: usize = i;
        while j < vectors.len()
            invariant
                vectors@.len() >= 2,
                start <= j <= vectors@.len(),
                new_points@.len() == points@.len() + (j - start),
                forall|m: int| 0 <= m < points@.len() ==> new_points@[m] == resampled_at(
                    vectors@,
                    points@[m],
                ),
                forall|m: int|
                    points@.len() <= m < new_points@.len() ==> new_points@[m] == vectors@[start + (
                    m - points@.len())],
            decreases vectors@.len() - j,
        {
            new_points.push(vectors[j]);
            j += 1;
        }
        proof {
            assert(new_points@ =~= resample(vectors@, points@));
        }
    } else {
        proof {
            assert(new_points@ =~= resample(vectors@, points@));
        }
    }
    new_points
}

/// Whether the merged sequence holds a point at time `t` (the three
/// channel samples of a merged point carry the same time; the position
/// sample's is taken as the point's).
pub open spec fn anim_has_time(s: Seq<AnimationPoint>, t: u32) -> bool {
    exists|k: int| 0 <= k < s.len() && s[k].position.time == t
}

/// Merged points come in strictly ascending time order.
pub open spec fn strictly_increasing_anim(s: Seq<AnimationPoint>) -> bool {
    forall|i: int, j: int|
        0 <= i < j < s.len() ==> s[i].position.time < s[j].position.time
}

/// The whole contract of a merge: the output holds exactly one point per
/// breakpoint, in ascending breakpoint order, and a point's three samples
/// are the channels resampled at the point's time.
pub open spec fn is_merged(
    length: u32,
    position: Seq<VectorPoint>,
    rotation: Seq<VectorPoint>,
    scale: Seq<VectorPoint>,
    out: Seq<AnimationPoint>,
) -> bool {
    &&& strictly_increasing_anim(out)
    &&& forall|x: u32|
        anim_has_time(out, x) <==> is_breakpoint(length, position, rotation, scale, x)
    &&& forall|k: int|
        0 <= k < out.len() ==> out[k].position == resampled_at(position, out[k].position.time)
    &&& forall|k: int|
        0 <= k < out.len() ==> out[k].rotation == resampled_at(rotation, out[k].position.time)
    &&& forall|k: int|
        0 <= k < out.len() ==> out[k].scale == resampled_at(scale, out[k].position.time)
}

/// A resampled point carries the breakpoint it was sampled at.
pub proof fn lemma_resampled_time(vectors: Seq<VectorPoint>, tp: u32)
    ensures
        resampled_at(vectors, tp).time == tp,
{
    reveal(sample_at);
    if vectors.len() >= 2 {
        let last = vectors[vectors.len() - 1];
        if !(tp > last.time) {
            let i = next_index(vectors, tp);
            lemma_next_index_from_char(vectors, 0, tp);
            if vectors[i].time != tp {
                assert(resampled_at(vectors, tp).time == tp);
            }
        }
    }
}

/// A member of a strictly ascending list is at most its last entry.
proof fn lemma_sorted_contains_le_last(s: Seq<u32>, x: u32)
    requires
        strictly_increasing(s),
        s.contains(x),
    ensures
        s.len() > 0,
        x <= s[s.len() - 1],
{
    let k = choose|k: int| 0 <= k < s.len() && s[k] == x;
    if k < s.len() - 1 {
        assert(s[k] < s[s.len() - 1]);
    }
}

/// When the breakpoint list covers every authored time of the channel, the
/// defensive tail of [`resample`] is empty.
proof fn lemma_no_tail(vectors: Seq<VectorPoint>, times: Seq<u32>)
    requires
        strictly_increasing_times(vectors),
        strictly_increasing(times),
        forall|x: u32| has_time(vectors, x) ==> times.contains(x),
    ensures
        resample(vectors, times) == pointwise(vectors, times),
        resample(vectors, times).len() == times.len(),
{
    if vectors.len() >= 2 {
        let last = vectors[vectors.len() - 1];
        assert(has_time(vectors, last.time)) by {
            assert(vectors[vectors.len() - 1].time == last.time);
        }
        lemma_sorted_contains_le_last(times, last.time);
        let tp = times[times.len() - 1];
        let i_fin = next_index(vectors, tp);
        lemma_next_index_from_char(vectors, 0, tp);
        if i_fin < vectors.len() - 1 {
            assert(vectors[i_fin].time >= tp >= last.time);
            assert(vectors[i_fin].time < last.time);
        }
        assert(!(vectors[i_fin].time < last.time));
    }
}

/// Builds one synchronized point per breakpoint from the three channels
/// resampled onto an already-built breakpoint list.
fn sum_with_set(
    position: &Vec<VectorPoint>,
    rotation: &Vec<VectorPoint>,
    scale: &Vec<VectorPoint>,
    set: &Vec<u32>,
) -> (r: Vec<AnimationPoint>)
    requires
        strictly_increasing_times(position@),
        strictly_increasing_times(rotation@),
        strictly_increasing_times(scale@),
        strictly_increasing(set@),
        forall|x: u32| has_time(position@, x) ==> set@.contains(x),
        forall|x: u32| has_time(rotation@, x) ==> set@.contains(x),
        forall|x: u32| has_time(scale@, x) ==> set@.contains(x),
    ensures
        r@.len() == set@.len(),
        forall|k: int|
            0 <= k < r@.len() ==> r@[k].position == resampled_at(position@, set@[k]),
        forall|k: int|
            0 <= k < r@.len() ==> r@[k].rotation == resampled_at(rotation@, set@[k]),
        forall|k: int| 0 <= k < r@.len() ==> r@[k].scale == resampled_at(scale@, set@[k]),
{
    let pp = put_point(position, set);
    let rp = put_point(rotation, set);
    let sp = put_point(scale, set);
    proof {
        lemma_no_tail(position@, set@);
        lemma_no_tail(rotation@, set@);
        lemma_no_tail(scale@, set@);
    }
    let mut points: Vec<AnimationPoint> = Vec::new();
    let mut k: usize = 0;
    while k < pp.len()
        invariant
            pp@.len() == set@.len(),
            rp@.len() == set@.len(),
            sp@.len() == set@.len(),
            pp@ == pointwise(position@, set@),
            rp@ == pointwise(rotation@, set@),
            sp@ == pointwise(scale@, set@),
            k <= set@.len(),
            points@.len() == k,
            forall|m: int|
                0 <= m < k ==> points@[m] == (AnimationPoint {
                    position: pp@[m],
                    rotation: rp@[m],
                    scale: sp@[m],
                }),
        decreases pp@.len() - k,
    {
        points.push(AnimationPoint { position: pp[k], rotation: rp[k], scale: sp[k] });
        k += 1;
    }
    points
}

/// Merges the three channel lists into one synchronized sample sequence:
/// one point per breakpoint, the breakpoints being zero, the animation
/// length, and every authored timestamp, ascending. A pure function of its
/// inputs.
#[verifier::rlimit(60)]
#[verifier::spinoff_prover]
pub fn sum(
    length: u32,
    position: &Vec<VectorPoint>,
    rotation: &Vec<VectorPoint>,
    scale: &Vec<VectorPoint>,
) -> (r: Vec<AnimationPoint>)
    requires
        strictly_increasing_times(position@),
        strictly_increasing_times(rotation@),
        strictly_increasing_times(scale@),
    ensures
        is_merged(length, position@, rotation@, scale@, r@),
        r@.len() >= 1,
{
    let set = breakpoints(length, position, rotation, scale);
    let r = sum_with_set(position, rotation, scale, &set);
    proof {
        assert forall|k: int| 0 <= k < r@.len() implies r@[k].position.time == set@[k] by {
            lemma_resampled_time(position@, set@[k]);
        }
        assert forall|x: u32|
            anim_has_time(r@, x) <==> is_breakpoint(
                length,
                position@,
                rotation@,
                scale@,
                x,
            ) by {
            if anim_has_time(r@, x) {
                let k = choose|k: int| 0 <= k < r@.len() && r@[k].position.time == x;
                assert(set@[k] == x);
                assert(set@.contains(x));
            }
            if set@.contains(x) {
                let k = choose|k: int| 0 <= k < set@.len() && set@[k] == x;
                assert(r@[k].position.time == x);
            }
        }
    }
    r
}

/// The position channel a merged sequence carries, as a channel list.
pub open spec fn positions_of(out: Seq<AnimationPoint>) -> Seq<VectorPoint> {
    Seq::new(out.len(), |k: int| out[k].position)
}

/// The rotation channel a merged sequence carries, as a channel list.
pub open spec fn rotations_of(out: Seq<AnimationPoint>) -> Seq<VectorPoint> {
    Seq::new(out.len(), |k: int| out[k].rotation)
}

/// The scale channel a merged sequence carries, as a channel list.
pub open spec fn scales_of(out: Seq<AnimationPoint>) -> Seq<VectorPoint> {
    Seq::new(out.len(), |k: int| out[k].scale)
}

/// Law: a merge returns one point per breakpoint, in strictly ascending
/// time order, and its breakpoints always carry time zero and the
/// animation length.
pub proof fn lemma_merge_breakpoints(
    length: u32,
    position: Seq<VectorPoint>,
    rotation: Seq<VectorPoint>,
    scale: Seq<VectorPoint>,
    out: Seq<AnimationPoint>,
)
    requires
        is_merged(length, position, rotation, scale, out),
    ensures
        strictly_increasing_anim(out),
        anim_has_time(out, 0),
        anim_has_time(out, length),
        forall|x: u32|
            anim_has_time(out, x) <==> is_breakpoint(length, position, rotation, scale, x),
{
    assert(is_breakpoint(length, position, rotation, scale, 0u32));
    assert(is_breakpoint(length, position, rotation, scale, length));
}

/// Resampling a channel at one of its own authored times returns that
/// authored point verbatim.
pub proof fn lemma_resample_at_authored(chan: Seq<VectorPoint>, k: int)
    requires
        strictly_increasing_times(chan),
        0 <= k < chan.len(),
    ensures
        resampled_at(chan, chan[k].time) == chan[k],
{
    reveal(sample_at);
    let tp = chan[k].time;
    if chan.len() == 1 {
        assert(resampled_at(chan, tp) == chan[0]);
    } else if chan.len() >= 2 {
        let last = chan[chan.len() - 1];
        if k < chan.len() - 1 {
            assert(chan[k].time < last.time);
        }
        assert(!(tp > last.time));
        lemma_next_index_from_unique(chan, 0, tp, k);
        assert(resampled_at(chan, tp) == chan[k]);
    }
}

/// Two strictly ascending merged sequences over the same time set sit on
/// the same times, index by index.
proof fn lemma_sorted_same_times(s1: Seq<AnimationPoint>, s2: Seq<AnimationPoint>)
    requires
        strictly_increasing_anim(s1),
        strictly_increasing_anim(s2),
        forall|x: u32| anim_has_time(s1, x) <==> anim_has_time(s2, x),
    ensures
        s1.len() == s2.len(),
        forall|k: int| 0 <= k < s1.len() ==> s1[k].position.time == s2[k].position.time,
    decreases s1.len(),
{
    if s1.len() == 0 {
        if s2.len() > 0 {
            assert(anim_has_time(s2, s2[0].position.time)) by {
                assert(s2[0].position.time == s2[0].position.time);
            }
            assert(anim_has_time(s1, s2[0].position.time));
        }
    } else {
        let t1 = s1[0].position.time;
        assert(anim_has_time(s1, t1)) by {
            assert(s1[0].position.time == t1);
        }
        assert(anim_has_time(s2, t1));
        let k2 = choose|k: int| 0 <= k < s2.len() && s2[k].position.time == t1;
        let t2 = s2[0].position.time;
        assert(anim_has_time(s2, t2)) by {
            assert(s2[0].position.time == t2);
        }
        assert(anim_has_time(s1, t2));
        let k1 = choose|k: int| 0 <= k < s1.len() && s1[k].position.time == t2;
        if k2 > 0 {
            assert(s2[0].position.time < s2[k2].position.time);
        }
        if k1 > 0 {
            assert(s1[0].position.time < s1[k1].position.time);
        }
        assert(t1 == t2);
        let r1 = s1.drop_first();
        let r2 = s2.drop_first();
        assert(strictly_increasing_anim(r1)) by {
            assert(forall|i: int, j: int|
                0 <= i < j < r1.len() ==> r1[i].position.time < r1[j].position.time) by {
                assert(forall|i: int| 0 <= i < r1.len() ==> r1[i] == s1[i + 1]);
            }
        }
        assert(strictly_increasing_anim(r2)) by {
            assert(forall|i: int, j: int|
                0 <= i < j < r2.len() ==> r2[i].position.time < r2[j].position.time) by {
                assert(forall|i: int| 0 <= i < r2.len() ==> r2[i] == s2[i + 1]);
            }
        }
        assert forall|x: u32| anim_has_time(r1, x) <==> anim_has_time(r2, x) by {
            if anim_has_time(r1, x) {
                let k = choose|k: int| 0 <= k < r1.len() && r1[k].position.time == x;
                assert(s1[k + 1].position.time == x);
                assert(anim_has_time(s1, x));
                assert(anim_has_time(s2, x));
                let m = choose|m: int| 0 <= m < s2.len() && s2[m].position.time == x;
                assert(s1[0].position.time < s1[k + 1].position.time);
                if m == 0 {
                    assert(x == t1);
                }
                assert(m > 0);
                assert(r2[m - 1].position.time == x);
                assert(anim_has_time(r2, x));
            }
            if anim_has_time(r2, x) {
                let k = choose|k: int| 0 <= k < r2.len() && r2[k].position.time == x;
                assert(s2[k + 1].position.time == x);
                assert(anim_has_time(s2, x));
                assert(anim_has_time(s1, x));
                let m = choose|m: int| 0 <= m < s1.len() && s1[m].position.time == x;
                assert(s2[0].position.time < s2[k + 1].position.time);
                if m == 0 {
                    assert(x == t1);
                }
                assert(m > 0);
                assert(r1[m - 1].position.time == x);
                assert(anim_has_time(r1, x));
            }
        }
        lemma_sorted_same_times(r1, r2);
        assert forall|k: int|
            0 <= k < s1.len() implies s1[k].position.time == s2[k].position.time by {
            if k > 0 {
                assert(r1[k - 1].position.time == r2[k - 1].position.time);
                assert(r1[k - 1] == s1[k]);
                assert(r2[k - 1] == s2[k]);
            }
        }
    }
}

/// The three channel lists a merged sequence carries sit on the sequence's
/// own times, strictly ascending.
proof fn lemma_merged_channel_times(
    length: u32,
    position: Seq<VectorPoint>,
    rotation: Seq<VectorPoint>,
    scale: Seq<VectorPoint>,
    out: Seq<AnimationPoint>,
)
    requires
        is_merged(length, position, rotation, scale, out),
    ensures
        forall|k: int| 0 <= k < out.len() ==> positions_of(out)[k].time == out[k].position.time,
        forall|k: int| 0 <= k < out.len() ==> rotations_of(out)[k].time == out[k].position.time,
        forall|k: int| 0 <= k < out.len() ==> scales_of(out)[k].time == out[k].position.time,
        strictly_increasing_times(positions_of(out)),
        strictly_increasing_times(rotations_of(out)),
        strictly_increasing_times(scales_of(out)),
{
    assert forall|k: int|
        0 <= k < out.len() implies rotations_of(out)[k].time == out[k].position.time && scales_of(
        out,
    )[k].time == out[k].position.time by {
        lemma_resampled_time(rotation, out[k].position.time);
        lemma_resampled_time(scale, out[k].position.time);
    }
}

/// A merge of a merged sequence's own channels sits on the same time set.
proof fn lemma_merged_same_set(
    length: u32,
    position: Seq<VectorPoint>,
    rotation: Seq<VectorPoint>,
    scale: Seq<VectorPoint>,
    out: Seq<AnimationPoint>,
    again: Seq<AnimationPoint>,
)
    requires
        forall|x: u32|
            anim_has_time(out, x) <==> is_breakpoint(length, position, rotation, scale, x),
        forall|x: u32|
            anim_has_time(again, x) <==> is_breakpoint(
                length,
                positions_of(out),
                rotations_of(out),
                scales_of(out),
                x,
            ),
        forall|k: int| 0 <= k < out.len() ==> positions_of(out)[k].time == out[k].position.time,
        forall|k: int| 0 <= k < out.len() ==> rotations_of(out)[k].time == out[k].position.time,
        forall|k: int| 0 <= k < out.len() ==> scales_of(out)[k].time == out[k].position.time,
    ensures
        forall|x: u32| anim_has_time(again, x) <==> anim_has_time(out, x),
{
    assert forall|x: u32| anim_has_time(again, x) <==> anim_has_time(out, x) by {
        assert(is_breakpoint(length, position, rotation, scale, 0u32));
        assert(is_breakpoint(length, position, rotation, scale, length));
        if anim_has_time(again, x) {
            assert(is_breakpoint(length, positions_of(out), rotations_of(out), scales_of(out), x));
            if x == 0 || x == length {
                assert(anim_has_time(out, x));
            } else if has_time(positions_of(out), x) {
                let k = choose|k: int|
                    0 <= k < positions_of(out).len() && positions_of(out)[k].time == x;
                assert(out[k].position.time == x);
            } else if has_time(rotations_of(out), x) {
                let k = choose|k: int|
                    0 <= k < rotations_of(out).len() && rotations_of(out)[k].time == x;
                assert(out[k].position.time == x);
            } else {
                let k = choose|k: int|
                    0 <= k < scales_of(out).len() && scales_of(out)[k].time == x;
                assert(out[k].position.time == x);
            }
        }
        if anim_has_time(out, x) {
            let k = choose|k: int| 0 <= k < out.len() && out[k].position.time == x;
            assert(positions_of(out)[k].time == x);
            assert(has_time(positions_of(out), x));
            assert(is_breakpoint(length, positions_of(out), rotations_of(out), scales_of(out), x));
        }
    }
}

/// One point of the re-merged sequence, compared with the original.
proof fn lemma_idempotent_at(
    length: u32,
    position: Seq<VectorPoint>,
    rotation: Seq<VectorPoint>,
    scale: Seq<VectorPoint>,
    out: Seq<AnimationPoint>,
    again: Seq<AnimationPoint>,
    k: int,
)
    requires
        is_merged(length, position, rotation, scale, out),
        is_merged(length, positions_of(out), rotations_of(out), scales_of(out), again),
        out.len() == again.len(),
        0 <= k < again.len(),
        again[k].position.time == out[k].position.time,
    ensures
        again[k] == out[k],
{
    lemma_merged_channel_times(length, position, rotation, scale, out);
    let t = again[k].position.time;
    assert(positions_of(out)[k].time == t);
    lemma_resample_at_authored(positions_of(out), k);
    assert(again[k].position == resampled_at(positions_of(out), t));
    assert(again[k].position == out[k].position);
    assert(rotations_of(out)[k].time == t);
    lemma_resample_at_authored(rotations_of(out), k);
    assert(again[k].rotation == resampled_at(rotations_of(out), t));
    assert(again[k].rotation == out[k].rotation);
    assert(scales_of(out)[k].time == t);
    lemma_resample_at_authored(scales_of(out), k);
    assert(again[k].scale == resampled_at(scales_of(out), t));
    assert(again[k].scale == out[k].scale);
}

/// Law: merging is idempotent. Feeding a merge's own output back in, as
/// three single-channel inputs sharing the same breakpoints and the same
/// animation length, returns the same sequence unchanged.
#[verifier::rlimit(100)]
#[verifier::spinoff_prover]
pub proof fn lemma_merge_idempotent(
    length: u32,
    position: Seq<VectorPoint>,
    rotation: Seq<VectorPoint>,
    scale: Seq<VectorPoint>,
    out: Seq<AnimationPoint>,
    again: Seq<AnimationPoint>,
)
    requires
        is_merged(length, position, rotation, scale, out),
        is_merged(length, positions_of(out), rotations_of(out), scales_of(out), again),
    ensures
        again == out,
{
    lemma_merged_channel_times(length, position, rotation, scale, out);
    lemma_merged_same_set(length, position, rotation, scale, out, again);
    lemma_sorted_same_times(out, again);
    assert forall|k: int| 0 <= k < again.len() implies again[k] == out[k] by {
        lemma_idempotent_at(length, position, rotation, scale, out, again, k);
    }
    assert(again =~= out);
}

} // verus!
