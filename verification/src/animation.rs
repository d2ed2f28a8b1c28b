use vstd::prelude::*;
use crate::blueprint::BlueprintChildren;
use crate::blueprint::BlueprintGroup;
use crate::bone::BoneName;
use crate::bone::BoneTag;
use crate::interpolate::Interpolation;
use crate::interpolate::VectorPoint;
use crate::math::trunc_div;
use crate::math::Vec3;
use crate::math::MODEL_TO_BLOCK_MULTIPLIER;
use crate::math::SCALAR_ONE;
use crate::model::DataPoint;
use crate::model::KeyFrameChannel;
use crate::bone::is_parsed;
use crate::bone::parsed_base_name;
use crate::bone::lemma_parsed_key;
use crate::bone::BoneTagRegistry;
use crate::model::kf_sorted;
use crate::model::kf_view;
use crate::model::kf_views;
use crate::model::insert_kfv;
use crate::model::sort_kfv;
use crate::model::KfView;
use crate::model::sort_keyframes;
use crate::model::sort_kf;
use crate::model::ModelAnimation;
use crate::model::ModelAnimator;
use crate::model::ModelKeyFrame;
use crate::script::BlueprintScript;
use crate::script::TimeScript;
use crate::text::str_eq_chars;
use crate::timeline::is_merged;
use crate::timeline::sum;

verus! {

/// One time-aligned triple of synchronized channel samples: all three
/// carry the same timestamp, one per output breakpoint.
#[derive(Clone, Copy, Debug, PartialEq, Eq, Structural)]
pub struct AnimationPoint {
    pub position: VectorPoint,
    pub rotation: VectorPoint,
    pub scale: VectorPoint,
}

/// How a finished animation is meant to be played back.
#[derive(Clone, Copy, Debug, PartialEq, Eq, Structural)]
pub enum AnimationType {
    PlayOnce,
    Loop,
    HoldOnLast,
}

impl Default for AnimationType {
    fn default() -> (r: Self)
        ensures
            r == AnimationType::PlayOnce,
    {
        AnimationType::PlayOnce
    }
}

/// One playback-ready movement sample: a time with its transform,
/// scale and rotation vectors.
#[derive(Clone, Copy, Debug, PartialEq, Eq, Structural)]
pub struct AnimationMovement {
    pub time: u32,
    pub transform: Vec3,
    pub scale: Vec3,
    pub rotation: Vec3,
}

impl Default for AnimationMovement {
    fn default() -> (r: Self)
        ensures
            r == AnimationMovement::zero_spec(),
    {
        AnimationMovement {
            time: 0,
            transform: Vec3 { x: 0, y: 0, z: 0 },
            scale: Vec3 { x: 0, y: 0, z: 0 },
            rotation: Vec3 { x: 0, y: 0, z: 0 },
        }
    }
}

impl AnimationMovement {
    /// The all-zero movement at time zero.
    pub open spec fn zero_spec() -> AnimationMovement {
        AnimationMovement {
            time: 0,
            transform: Vec3 { x: 0, y: 0, z: 0 },
            scale: Vec3 { x: 0, y: 0, z: 0 },
            rotation: Vec3 { x: 0, y: 0, z: 0 },
        }
    }

    pub fn new(time: u32, transform: Vec3, scale: Vec3, rotation: Vec3) -> (r: Self)
        ensures
            r == (AnimationMovement { time, transform, scale, rotation }),
    {
        AnimationMovement { time, transform, scale, rotation }
    }

    /// The zero movement sitting at the animation's end.
    pub fn from_lenght(length: u32) -> (r: Self)
        ensures
            r == (AnimationMovement { time: length, ..AnimationMovement::zero_spec() }),
    {
        AnimationMovement {
            time: length,
            transform: Vec3 { x: 0, y: 0, z: 0 },
            scale: Vec3 { x: 0, y: 0, z: 0 },
            rotation: Vec3 { x: 0, y: 0, z: 0 },
        }
    }
}

/// A bone's merged samples, ready to attach to its tree node.
#[derive(Clone, Debug)]
pub struct AnimatorData {
    pub name: String,
    pub points: Vec<AnimationPoint>,
}

/// A bone's playback movement track.
#[derive(Clone, Debug)]
pub struct BlueprintAnimator {
    pub name: String,
    pub key_frame: Vec<AnimationMovement>,
}

impl BlueprintAnimator {
    /// Opens a builder bounded by the animation's length.
    pub fn builder(length: u32) -> (b: BlueprintAnimatorBuilder)
        ensures
            b.length == length,
            b.transform@.len() == 0,
            b.scale@.len() == 0,
            b.rotation@.len() == 0,
            b.wf(),
    {
        BlueprintAnimatorBuilder::new(length)
    }
}

/// Channel point times never decrease.
pub open spec fn nondec_times(s: Seq<VectorPoint>) -> bool {
    forall|i: int, j: int| 0 <= i < j < s.len() ==> s[i].time <= s[j].time
}

/// Every channel point sits at or before the given bound.
pub open spec fn times_bounded(s: Seq<VectorPoint>, length: u32) -> bool {
    forall|i: int| 0 <= i < s.len() ==> s[i].time <= length
}

/// A raw sample's components leave room for the display-convention sign
/// swaps and the scale-delta subtraction.
pub open spec fn sample_in_range(dp: DataPoint) -> bool {
    &&& dp.x >= i64::MIN + SCALAR_ONE
    &&& dp.y >= i64::MIN + SCALAR_ONE
    &&& dp.z >= i64::MIN + SCALAR_ONE
}

/// A position sample converted for display: scaled from model to block
/// units, with the z axis flipped.
pub open spec fn position_of_sample(dp: DataPoint) -> Vec3 {
    Vec3 {
        x: trunc_div(dp.x as int, MODEL_TO_BLOCK_MULTIPLIER as int) as i64,
        y: trunc_div(dp.y as int, MODEL_TO_BLOCK_MULTIPLIER as int) as i64,
        z: (-trunc_div(dp.z as int, MODEL_TO_BLOCK_MULTIPLIER as int)) as i64,
    }
}

/// A rotation sample converted for display: the y and z axes flipped.
pub open spec fn rotation_of_sample(dp: DataPoint) -> Vec3 {
    Vec3 { x: dp.x, y: (-(dp.y as int)) as i64, z: (-(dp.z as int)) as i64 }
}

/// A scale sample converted to a zero-based delta: one subtracted from
/// every axis.
pub open spec fn scale_of_sample(dp: DataPoint) -> Vec3 {
    Vec3 {
        x: (dp.x - SCALAR_ONE) as i64,
        y: (dp.y - SCALAR_ONE) as i64,
        z: (dp.z - SCALAR_ONE) as i64,
    }
}

/// What one keyframe contributes to its channel: one point per raw
/// sample, each at the keyframe's time, carrying its strategy.
pub open spec fn keyframe_points(kf: KfView) -> Seq<VectorPoint> {
    Seq::new(
        kf.samples.len(),
        |i: int|
            VectorPoint {
                vector: match kf.channel {
                    KeyFrameChannel::Position => position_of_sample(kf.samples[i]),
                    KeyFrameChannel::Rotation => rotation_of_sample(kf.samples[i]),
                    KeyFrameChannel::Scale => scale_of_sample(kf.samples[i]),
                    _ => Vec3 { x: 0, y: 0, z: 0 },
                },
                time: kf.time,
                interpolation: Interpolation::Linear,
            },
    )
}

/// Accumulates raw keyframes into per-channel point lists, dropping
/// frames past the animation-length bound, and hands them to the
/// timeline unifier.
pub struct BlueprintAnimatorBuilder {
    pub length: u32,
    pub transform: Vec<VectorPoint>,
    pub scale: Vec<VectorPoint>,
    pub rotation: Vec<VectorPoint>,
}

impl BlueprintAnimatorBuilder {
    /// The builder's integrity: channels grow in time order, within the
    /// length bound.
    pub open spec fn wf(&self) -> bool {
        &&& nondec_times(self.transform@)
        &&& nondec_times(self.scale@)
        &&& nondec_times(self.rotation@)
        &&& times_bounded(self.transform@, self.length)
        &&& times_bounded(self.scale@, self.length)
        &&& times_bounded(self.rotation@, self.length)
    }

    /// Whether a keyframe at time `t` may be fed next: no channel holds a
    /// later point. Callers feed keyframes in time order, as the
    /// generator does after sorting.
    pub open spec fn accepts(&self, t: u32) -> bool {
        &&& times_bounded(self.transform@, t)
        &&& times_bounded(self.scale@, t)
        &&& times_bounded(self.rotation@, t)
    }

    pub fn new(length: u32) -> (b: Self)
        ensures
            b.length == length,
            b.transform@.len() == 0,
            b.scale@.len() == 0,
            b.rotation@.len() == 0,
            b.wf(),
    {
        BlueprintAnimatorBuilder {
            length,
            transform: Vec::new(),
            scale: Vec::new(),
            rotation: Vec::new(),
        }
    }

    /// Feeds one raw keyframe: silently dropped past the length bound,
    /// otherwise every sample triple is converted for its channel and
    /// appended; channels other than position, rotation and scale are
    /// ignored.
    pub fn add_frame(&mut self, keyframe: &ModelKeyFrame)
        requires
            old(self).wf(),
            keyframe.time <= old(self).length ==> old(self).accepts(keyframe.time),
            forall|i: int|
                0 <= i < keyframe.data_points@.len() ==> sample_in_range(
                    #[trigger] keyframe.data_points@[i],
                ),
        ensures
            final(self).wf(),
            final(self).length == old(self).length,
            keyframe.time > old(self).length ==> *final(self) == *old(self),
            keyframe.time <= old(self).length ==> {
                &&& final(self).transform@ == old(self).transform@ + (
                if keyframe.channel == KeyFrameChannel::Position {
                    keyframe_points(kf_view(*keyframe))
                } else {
                    Seq::empty()
                })
                &&& final(self).rotation@ == old(self).rotation@ + (
                if keyframe.channel == KeyFrameChannel::Rotation {
                    keyframe_points(kf_view(*keyframe))
                } else {
                    Seq::empty()
                })
                &&& final(self).scale@ == old(self).scale@ + (
                if keyframe.channel == KeyFrameChannel::Scale {
                    keyframe_points(kf_view(*keyframe))
                } else {
                    Seq::empty()
                })
            },
    {
        if keyframe.time > self.length {
            return ;
        }
        let interpolation = keyframe.find_interpolation();
        let n = keyframe.data_points.len();
        let mut i: usize = 0;
        while i < n
            invariant
                n == keyframe.data_points@.len(),
                i <= n,
                self.length == old(self).length,
                keyframe.time <= self.length,
                forall|m: int|
                    0 <= m < keyframe.data_points@.len() ==> sample_in_range(
                        #[trigger] keyframe.data_points@[m],
                    ),
                interpolation == Interpolation::Linear,
                old(self).wf(),
                old(self).accepts(keyframe.time),
                self.transform@ == old(self).transform@ + (
                if keyframe.channel == KeyFrameChannel::Position {
                    keyframe_points(kf_view(*keyframe)).subrange(0, i as int)
                } else {
                    Seq::empty()
                }),
                self.rotation@ == old(self).rotation@ + (
                if keyframe.channel == KeyFrameChannel::Rotation {
                    keyframe_points(kf_view(*keyframe)).subrange(0, i as int)
                } else {
                    Seq::empty()
                }),
                self.scale@ == old(self).scale@ + (
                if keyframe.channel == KeyFrameChannel::Scale {
                    keyframe_points(kf_view(*keyframe)).subrange(0, i as int)
                } else {
                    Seq::empty()
                }),
            decreases n - i,
        {
            let data_point = &keyframe.data_points[i];
            let vec = data_point.to_vector();
            match keyframe.channel {
                KeyFrameChannel::Position => {
                    let scaled = vec.to_block_scale();
                    let converted = crate::math::transform_to_display(scaled);
                    self.transform.push(
                        VectorPoint::new(converted, keyframe.time, interpolation),
                    );
                    proof {
                        assert(converted == position_of_sample(keyframe.data_points@[i as int]));
                        assert(self.transform@ =~= old(self).transform@ + keyframe_points(
                            kf_view(*keyframe),
                        ).subrange(0, i as int + 1));
                    }
                },
                KeyFrameChannel::Rotation => {
                    let converted = crate::math::animation_to_display(vec);
                    self.rotation.push(
                        VectorPoint::new(converted, keyframe.time, interpolation),
                    );
                    proof {
                        assert(converted == rotation_of_sample(keyframe.data_points@[i as int]));
                        assert(self.rotation@ =~= old(self).rotation@ + keyframe_points(
                            kf_view(*keyframe),
                        ).subrange(0, i as int + 1));
                    }
                },
                KeyFrameChannel::Scale => {
                    let one = Vec3::flat(SCALAR_ONE);
                    let converted = vec.sub(&one);
                    self.scale.push(VectorPoint::new(converted, keyframe.time, interpolation));
                    proof {
                        assert(converted == scale_of_sample(keyframe.data_points@[i as int]));
                        assert(self.scale@ =~= old(self).scale@ + keyframe_points(
                            kf_view(*keyframe),
                        ).subrange(0, i as int + 1));
                    }
                },
                _ => {},
            }
            i += 1;
        }
        proof {
            assert(keyframe_points(kf_view(*keyframe)).subrange(0, n as int) =~= keyframe_points(
                kf_view(*keyframe),
            ));
            assert forall|p: int, q: int|
                0 <= p < q < self.transform@.len() implies self.transform@[p].time
                <= self.transform@[q].time by {
                if p >= old(self).transform@.len() {
                    assert(self.transform@[p].time == keyframe.time);
                }
                if q >= old(self).transform@.len() {
                    assert(self.transform@[q].time == keyframe.time);
                }
            }
            assert forall|p: int, q: int|
                0 <= p < q < self.rotation@.len() implies self.rotation@[p].time
                <= self.rotation@[q].time by {
                if p >= old(self).rotation@.len() {
                    assert(self.rotation@[p].time == keyframe.time);
                }
                if q >= old(self).rotation@.len() {
                    assert(self.rotation@[q].time == keyframe.time);
                }
            }
            assert forall|p: int, q: int|
                0 <= p < q < self.scale@.len() implies self.scale@[p].time
                <= self.scale@[q].time by {
                if p >= old(self).scale@.len() {
                    assert(self.scale@[p].time == keyframe.time);
                }
                if q >= old(self).scale@.len() {
                    assert(self.scale@[q].time == keyframe.time);
                }
            }
        }
    }

    /// Deduplicates each channel by time — the first-seen sample at a
    /// time wins — and merges the three channels into one synchronized
    /// sequence under the bone's name.
    pub fn build(self, name: String) -> (r: AnimatorData)
        requires
            self.wf(),
        ensures
            r.name == name,
            is_merged(
                self.length,
                dedup_times(self.transform@),
                dedup_times(self.rotation@),
                dedup_times(self.scale@),
                r.points@,
            ),
            r.points@.len() >= 1,
    {
        let transform = unique(self.transform);
        let rotation = unique(self.rotation);
        let scale = unique(self.scale);
        proof {
            lemma_dedup_strict(self.transform@);
            lemma_dedup_strict(self.rotation@);
            lemma_dedup_strict(self.scale@);
        }
        let points = sum(self.length, &transform, &rotation, &scale);
        AnimatorData { name, points }
    }
}

/// First-occurrence-wins deduplication by time: a point stays only when
/// no earlier point shares its time.
pub open spec fn dedup_times(s: Seq<VectorPoint>) -> Seq<VectorPoint>
    decreases s.len(),
{
    if s.len() == 0 {
        Seq::empty()
    } else {
        let d = dedup_times(s.drop_last());
        if exists|i: int| 0 <= i < s.len() - 1 && s[i].time == s.last().time {
            d
        } else {
            d.push(s.last())
        }
    }
}

/// Deduplication keeps exactly the first-seen times.
proof fn lemma_dedup_has_time(s: Seq<VectorPoint>, t: u32)
    ensures
        crate::timeline::has_time(dedup_times(s), t) == crate::timeline::has_time(s, t),
    decreases s.len(),
{
    if s.len() > 0 {
        lemma_dedup_has_time(s.drop_last(), t);
        let d0 = dedup_times(s.drop_last());
        if exists|i: int| 0 <= i < s.len() - 1 && s[i].time == s.last().time {
            if crate::timeline::has_time(s, t) {
                let k = choose|k: int| 0 <= k < s.len() && s[k].time == t;
                if k == s.len() - 1 {
                    let e = choose|i: int| 0 <= i < s.len() - 1 && s[i].time == s.last().time;
                    assert(s.drop_last()[e].time == t);
                    assert(crate::timeline::has_time(s.drop_last(), t));
                } else {
                    assert(s.drop_last()[k].time == t);
                    assert(crate::timeline::has_time(s.drop_last(), t));
                }
            }
            if crate::timeline::has_time(s.drop_last(), t) {
                let k = choose|k: int| 0 <= k < s.len() - 1 && s.drop_last()[k].time == t;
                assert(s[k].time == t);
            }
        } else {
            if crate::timeline::has_time(s, t) {
                let k = choose|k: int| 0 <= k < s.len() && s[k].time == t;
                if k == s.len() - 1 {
                    assert(dedup_times(s)[dedup_times(s).len() - 1].time == t);
                } else {
                    assert(s.drop_last()[k].time == t);
                    let m = choose|m: int| 0 <= m < d0.len() && d0[m].time == t;
                    assert(dedup_times(s)[m].time == t);
                }
            }
            if crate::timeline::has_time(dedup_times(s), t) {
                let k = choose|k: int|
                    0 <= k < dedup_times(s).len() && dedup_times(s)[k].time == t;
                if k < d0.len() {
                    let m = choose|m: int| 0 <= m < s.len() - 1 && s.drop_last()[m].time == t;
                    assert(s[m].time == t);
                } else {
                    assert(s.last().time == t);
                }
            }
        }
    }
}

/// Deduplicating a time-ordered channel leaves strictly increasing times.
proof fn lemma_dedup_strict(s: Seq<VectorPoint>)
    requires
        nondec_times(s),
    ensures
        crate::timeline::strictly_increasing_times(dedup_times(s)),
        times_in(dedup_times(s), s),
    decreases s.len(),
{
    if s.len() > 0 {
        assert(nondec_times(s.drop_last()));
        lemma_dedup_strict(s.drop_last());
        let d0 = dedup_times(s.drop_last());
        let d = dedup_times(s);
        if !(exists|i: int| 0 <= i < s.len() - 1 && s[i].time == s.last().time) {
            assert forall|p: int, q: int| 0 <= p < q < d.len() implies d[p].time < d[q].time by {
                if q == d.len() - 1 {
                    let dp = d0[p];
                    let src = choose|m: int|
                        0 <= m < s.drop_last().len() && s.drop_last()[m] == dp
                            && #[trigger] s.drop_last()[m].time == dp.time;
                    assert(s[src].time <= s.last().time);
                    assert(s[src].time != s.last().time);
                } else {
                    assert(d[p] == d0[p] && d[q] == d0[q]);
                }
            }
        }
        assert forall|k: int| #![trigger d[k]]
            0 <= k < d.len() implies exists|m: int|
            0 <= m < s.len() && s[m] == d[k] && #[trigger] s[m].time == d[k].time by {
            if k < d0.len() {
                let dk = d0[k];
                let m = choose|m: int|
                    0 <= m < s.drop_last().len() && s.drop_last()[m] == dk
                        && #[trigger] s.drop_last()[m].time == dk.time;
                assert(s[m] == d[k] && s[m].time == d[k].time);
            } else {
                assert(s[s.len() - 1] == d[k]);
            }
        }
    }
}

/// Every deduplicated point is one of the channel's own points.
pub open spec fn times_in(d: Seq<VectorPoint>, s: Seq<VectorPoint>) -> bool {
    forall|k: int| #![trigger d[k]]
        0 <= k < d.len() ==> exists|m: int|
            0 <= m < s.len() && s[m] == d[k] && #[trigger] s[m].time == d[k].time
}

/// First-occurrence-wins deduplication by time, preserving order.
fn unique(items: Vec<VectorPoint>) -> (r: Vec<VectorPoint>)
    ensures
        r@ == dedup_times(items@),
{
    let mut out: Vec<VectorPoint> = Vec::new();
    let mut k: usize = 0;
    proof {
        assert(items@.subrange(0, 0) =~= Seq::<VectorPoint>::empty());
    }
    while k < items.len()
        invariant
            k <= items@.len(),
            out@ == dedup_times(items@.subrange(0, k as int)),
            forall|x: u32|
                crate::timeline::has_time(out@, x) == crate::timeline::has_time(
                    items@.subrange(0, k as int),
                    x,
                ),
        decreases items@.len() - k,
    {
        let p = items[k];
        let mut seen = false;
        let m = out.len();
        let mut j: usize = 0;
        while j < m
            invariant
                m == out@.len(),
                j <= m,
                seen == exists|q: int| 0 <= q < j && out@[q].time == p.time,
            decreases m - j,
        {
            if out[j].time == p.time {
                seen = true;
                proof {
                    assert(out@[j as int].time == p.time);
                }
            }
            j += 1;
        }
        let ghost prefix = items@.subrange(0, k as int);
        let ghost prefix1 = items@.subrange(0, k as int + 1);
        proof {
            assert(prefix1.drop_last() =~= prefix);
            assert(prefix1.last() == p);
            lemma_dedup_has_time(prefix, p.time);
            assert(seen == crate::timeline::has_time(prefix, p.time));
            assert((exists|i: int| 0 <= i < prefix1.len() - 1 && prefix1[i].time
                == prefix1.last().time) == crate::timeline::has_time(prefix, p.time)) by {
                if exists|i: int|
                    0 <= i < prefix1.len() - 1 && prefix1[i].time == prefix1.last().time {
                    let i = choose|i: int|
                        0 <= i < prefix1.len() - 1 && prefix1[i].time == prefix1.last().time;
                    assert(prefix[i].time == p.time);
                }
                if crate::timeline::has_time(prefix, p.time) {
                    let i = choose|i: int| 0 <= i < prefix.len() && prefix[i].time == p.time;
                    assert(prefix1[i].time == prefix1.last().time);
                }
            }
        }
        if !seen {
            out.push(p);
        }
        proof {
            assert(out@ == dedup_times(prefix1));
            assert forall|x: u32|
                crate::timeline::has_time(out@, x) == crate::timeline::has_time(prefix1, x) by {
                lemma_dedup_has_time(prefix1, x);
            }
        }
        k += 1;
    }
    proof {
        assert(items@.subrange(0, items@.len() as int) =~= items@);
    }
    out
}

/// The key identity of a bone name: base name and raw string, the tag
/// set excluded.
pub open spec fn same_bone(a: BoneName, b: BoneName) -> bool {
    a.name@ == b.name@ && a.raw_name@ == b.raw_name@
}

/// The first entry keyed by the bone name, if any.
pub open spec fn animator_get<V>(m: Seq<(BoneName, V)>, k: BoneName) -> Option<V>
    decreases m.len(),
{
    if m.len() == 0 {
        None
    } else if same_bone(m[0].0, k) {
        Some(m[0].1)
    } else {
        animator_get(m.drop_first(), k)
    }
}

/// The merged points the map holds for a bone, or none.
pub open spec fn group_points(m: Seq<(BoneName, AnimatorData)>, k: BoneName) -> Seq<
    AnimationPoint,
> {
    match animator_get(m, k) {
        Some(d) => d.points@,
        None => Seq::empty(),
    }
}

/// The ghost shape of one tree node; the bone name spelled out as its
/// character sequences and tag set.
pub ghost struct TreeNodeView {
    pub parent: Option<int>,
    pub children: Seq<int>,
    pub name: Seq<char>,
    pub raw_name: Seq<char>,
    pub tags: Seq<BoneTag>,
    pub points: Seq<AnimationPoint>,
}

/// One node of the animation tree arena: a non-owning back-reference to
/// its parent, its owned children as arena indices, its bone name, and
/// its merged samples (empty when unauthored).
pub struct AnimationTreeNode {
    pub parent: Option<usize>,
    pub children: Vec<usize>,
    pub name: BoneName,
    pub points: Vec<AnimationPoint>,
}

/// The ghost shape of a node.
pub open spec fn node_view(n: AnimationTreeNode) -> TreeNodeView {
    TreeNodeView {
        parent: match n.parent {
            Some(p) => Some(p as int),
            None => None,
        },
        children: Seq::new(n.children@.len(), |i: int| n.children@[i] as int),
        name: n.name.name@,
        raw_name: n.name.raw_name@,
        tags: n.name.tags@,
        points: n.points@,
    }
}

/// The bone hierarchy mirrored into an owned tree: an arena of nodes
/// addressed by index, the root first, each subtree laid out before its
/// right siblings.
pub struct AnimationTree {
    pub nodes: Vec<AnimationTreeNode>,
}

/// The ghost shape of the whole arena.
pub open spec fn tree_view(t: AnimationTree) -> Seq<TreeNodeView> {
    Seq::new(t.nodes@.len(), |i: int| node_view(t.nodes@[i]))
}

/// How many nodes a group's subtree owns: itself and its child groups'
/// subtrees (leaf elements own no node).
pub open spec fn count_nodes(g: BlueprintGroup) -> int
    decreases g,
{
    1 + count_children(g.children@)
}

/// How many nodes the groups among these children own together.
pub open spec fn count_children(s: Seq<BlueprintChildren>) -> int
    decreases s,
{
    if s.len() == 0 {
        0
    } else {
        (match s[0] {
            BlueprintChildren::Element(_) => 0,
            BlueprintChildren::Group(bg) => count_nodes(bg),
        }) + count_children(s.drop_first())
    }
}

/// How many of these children are groups.
pub open spec fn group_child_count(s: Seq<BlueprintChildren>) -> int
    decreases s.len(),
{
    if s.len() == 0 {
        0
    } else {
        (match s[0] {
            BlueprintChildren::Element(_) => 0int,
            BlueprintChildren::Group(_) => 1int,
        }) + group_child_count(s.drop_first())
    }
}

/// The arena a group's subtree builds when its own node carries `pts`,
/// sits at index `base` and points back at `parent`: the node itself,
/// then its child groups' subtrees in order.
pub open spec fn build_group(
    g: BlueprintGroup,
    map: Seq<(BoneName, AnimatorData)>,
    parent: Option<int>,
    base: int,
    pts: Seq<AnimationPoint>,
) -> Seq<TreeNodeView>
    decreases g,
{
    let kids = build_children(g.children@, map, base, base + 1);
    seq![
        TreeNodeView {
            parent,
            children: kids.1,
            name: g.name.name@,
            raw_name: g.name.raw_name@,
            tags: g.name.tags@,
            points: pts,
        },
    ] + kids.0
}

/// The arenas the groups among these children build from index `base`
/// onward, and the indices their roots land on.
pub open spec fn build_children(
    s: Seq<BlueprintChildren>,
    map: Seq<(BoneName, AnimatorData)>,
    parent: int,
    base: int,
) -> (Seq<TreeNodeView>, Seq<int>)
    decreases s,
{
    if s.len() == 0 {
        (Seq::empty(), Seq::empty())
    } else {
        match s[0] {
            BlueprintChildren::Element(_) => build_children(s.drop_first(), map, parent, base),
            BlueprintChildren::Group(bg) => {
                let sub = build_group(bg, map, Some(parent), base, group_points(map, bg.name));
                let rest = build_children(
                    s.drop_first(),
                    map,
                    parent,
                    base + count_nodes(bg),
                );
                (sub + rest.0, seq![base] + rest.1)
            },
        }
    }
}

/// A subtree's arena holds exactly as many nodes as the subtree counts,
/// and one root index per child group.
proof fn lemma_build_children_len(
    s: Seq<BlueprintChildren>,
    map: Seq<(BoneName, AnimatorData)>,
    parent: int,
    base: int,
)
    ensures
        build_children(s, map, parent, base).0.len() == count_children(s),
        build_children(s, map, parent, base).1.len() == group_child_count(s),
    decreases s,
{
    if s.len() > 0 {
        match s[0] {
            BlueprintChildren::Element(_) => {
                lemma_build_children_len(s.drop_first(), map, parent, base);
            },
            BlueprintChildren::Group(bg) => {
                lemma_build_group_len(bg, map, Some(parent), base, group_points(map, bg.name));
                lemma_build_children_len(s.drop_first(), map, parent, base + count_nodes(bg));
            },
        }
    }
}

/// As [`lemma_build_children_len`], for one group's subtree.
proof fn lemma_build_group_len(
    g: BlueprintGroup,
    map: Seq<(BoneName, AnimatorData)>,
    parent: Option<int>,
    base: int,
    pts: Seq<AnimationPoint>,
)
    ensures
        build_group(g, map, parent, base, pts).len() == count_nodes(g),
    decreases g,
{
    lemma_build_children_len(g.children@, map, base, base + 1);
}

/// The ghost shapes of an arena segment.
pub open spec fn views_of(nodes: Seq<AnimationTreeNode>) -> Seq<TreeNodeView> {
    Seq::new(nodes.len(), |i: int| node_view(nodes[i]))
}

/// Arena indices as mathematical integers.
pub open spec fn idx_views(s: Seq<usize>) -> Seq<int> {
    Seq::new(s.len(), |i: int| s[i] as int)
}

/// An optional arena index as a mathematical integer.
pub open spec fn opt_view(p: Option<usize>) -> Option<int> {
    match p {
        Some(v) => Some(v as int),
        None => None,
    }
}

/// Subtree node counts are non-negative, and a group's is positive.
proof fn lemma_count_nonneg(s: Seq<BlueprintChildren>)
    ensures
        count_children(s) >= 0,
        group_child_count(s) >= 0,
        group_child_count(s) == 0 ==> count_children(s) == 0,
    decreases s,
{
    if s.len() > 0 {
        lemma_count_nonneg(s.drop_first());
        match s[0] {
            BlueprintChildren::Element(_) => {
                assert(count_children(s) == count_children(s.drop_first()));
                assert(group_child_count(s) == group_child_count(s.drop_first()));
            },
            BlueprintChildren::Group(bg) => {
                lemma_count_nonneg(bg.children@);
                assert(count_nodes(bg) == 1 + count_children(bg.children@));
                assert(count_children(s) == count_nodes(bg) + count_children(s.drop_first()));
                assert(group_child_count(s) == 1 + group_child_count(s.drop_first()));
            },
        }
    }
}

/// A copy of a tag list.
fn clone_tags(v: &Vec<BoneTag>) -> (r: Vec<BoneTag>)
    ensures
        r@ == v@,
{
    let mut out: Vec<BoneTag> = Vec::new();
    let mut i: usize = 0;
    while i < v.len()
        invariant
            i <= v@.len(),
            out@ == v@.subrange(0, i as int),
        decreases v@.len() - i,
    {
        out.push(v[i]);
        proof {
            assert(out@ =~= v@.subrange(0, i as int + 1));
        }
        i += 1;
    }
    proof {
        assert(v@.subrange(0, v@.len() as int) =~= v@);
    }
    out
}

/// A field-for-field copy of a bone name.
fn clone_bone_name(b: &BoneName) -> (r: BoneName)
    ensures
        r.name@ == b.name@,
        r.raw_name@ == b.raw_name@,
        r.tags@ == b.tags@,
{
    BoneName { name: b.name.clone(), raw_name: b.raw_name.clone(), tags: clone_tags(&b.tags) }
}

/// A copy of a merged sample list.
fn clone_anim_points(v: &Vec<AnimationPoint>) -> (r: Vec<AnimationPoint>)
    ensures
        r@ == v@,
{
    let mut out: Vec<AnimationPoint> = Vec::new();
    let mut i: usize = 0;
    while i < v.len()
        invariant
            i <= v@.len(),
            out@ == v@.subrange(0, i as int),
        decreases v@.len() - i,
    {
        out.push(v[i]);
        proof {
            assert(out@ =~= v@.subrange(0, i as int + 1));
        }
        i += 1;
    }
    proof {
        assert(v@.subrange(0, v@.len() as int) =~= v@);
    }
    out
}

/// Looks a bone's merged samples up in the generated map; an unauthored
/// bone resolves to the empty sequence.
fn animator_points(map: &Vec<(BoneName, AnimatorData)>, k: &BoneName) -> (r: Vec<AnimationPoint>)
    ensures
        r@ == group_points(map@, *k),
{
    let n = map.len();
    let mut i: usize = 0;
    proof {
        assert(map@.subrange(0, n as int) =~= map@);
    }
    while i < n
        invariant
            n == map@.len(),
            i <= n,
            animator_get(map@, *k) == animator_get(
                map@.subrange(i as int, n as int),
                *k,
            ),
        decreases n - i,
    {
        let ghost before = map@.subrange(i as int, n as int);
        proof {
            assert(before.len() > 0);
            assert(before[0] == map@[i as int]);
            assert(before.drop_first() =~= map@.subrange(i as int + 1, n as int));
        }
        let entry = &map[i];
        if entry.0 == *k {
            return clone_anim_points(&entry.1.points);
        }
        i += 1;
    }
    proof {
        assert(map@.subrange(n as int, n as int) =~= Seq::<(BoneName, AnimatorData)>::empty());
    }
    Vec::new()
}

/// Builds the arena segments of the groups among these children, the
/// first at index `base`, each pointing back at `parent`.
fn build_children_exec(
    s: &Vec<BlueprintChildren>,
    map: &Vec<(BoneName, AnimatorData)>,
    parent: usize,
    base: usize,
) -> (r: (Vec<AnimationTreeNode>, Vec<usize>))
    requires
        base + count_children(s@) <= usize::MAX,
    ensures
        views_of(r.0@) == build_children(s@, map@, parent as int, base as int).0,
        idx_views(r.1@) == build_children(s@, map@, parent as int, base as int).1,
        r.0@.len() == count_children(s@),
        r.1@.len() == group_child_count(s@),
    decreases s@,
{
    let mut nodes: Vec<AnimationTreeNode> = Vec::new();
    let mut idxs: Vec<usize> = Vec::new();
    let n = s.len();
    let mut i: usize = 0;
    proof {
        lemma_count_nonneg(s@);
        lemma_build_children_len(s@, map@, parent as int, base as int);
        assert(s@.subrange(0, n as int) =~= s@);
    }
    while i < n
        invariant
            n == s@.len(),
            i <= n,
            base + count_children(s@) <= usize::MAX,
            nodes@.len() + count_children(s@.subrange(i as int, n as int)) == count_children(s@),
            idxs@.len() + group_child_count(s@.subrange(i as int, n as int))
                == group_child_count(s@),
            build_children(s@, map@, parent as int, base as int) == {
                let rest = build_children(
                    s@.subrange(i as int, n as int),
                    map@,
                    parent as int,
                    base as int + nodes@.len(),
                );
                (views_of(nodes@) + rest.0, idx_views(idxs@) + rest.1)
            },
        decreases n - i,
    {
        let ghost before = s@.subrange(i as int, n as int);
        let ghost after = s@.subrange(i as int + 1, n as int);
        proof {
            lemma_count_nonneg(before);
            lemma_count_nonneg(after);
            assert(before.len() > 0);
            assert(before[0] == s@[i as int]);
            assert(before.drop_first() =~= after);
        }
        match &s[i] {
            BlueprintChildren::Element(_) => {
                proof {
                    assert(count_children(before) == count_children(after));
                    assert(group_child_count(before) == group_child_count(after));
                }
            },
            BlueprintChildren::Group(bg) => {
                let here = base + nodes.len();
                let pts = animator_points(map, &bg.name);
                proof {
                    assert(decreases_to!(s@ => s@[i as int]));
                    assert(decreases_to!(s@[i as int] => (s@[i as int])->Group_0));
                    assert((s@[i as int])->Group_0 == *bg);
                    lemma_count_nonneg(bg.children@);
                    lemma_build_group_len(
                        *bg,
                        map@,
                        Some(parent as int),
                        here as int,
                        group_points(map@, bg.name),
                    );
                    assert(count_nodes(*bg) + count_children(after) == count_children(before));
                }
                let mut sub = build_group_exec(bg, map, Some(parent), here, pts);
                idxs.push(here);
                let ghost nodes0 = nodes@;
                let ghost sub0 = sub@;
                nodes.append(&mut sub);
                proof {
                    assert(nodes@ == nodes0 + sub0);
                    assert(views_of(nodes@) =~= views_of(nodes0) + views_of(sub0));
                    assert(idx_views(idxs@) =~= idx_views(idxs@.drop_last()) + seq![
                        here as int,
                    ]);
                }
            },
        }
        i += 1;
    }
    proof {
        assert(s@.subrange(n as int, n as int) =~= Seq::<BlueprintChildren>::empty());
        assert(views_of(nodes@) =~= views_of(nodes@) + Seq::<TreeNodeView>::empty());
        assert(idx_views(idxs@) =~= idx_views(idxs@) + Seq::<int>::empty());
    }
    (nodes, idxs)
}

/// Builds one group's subtree arena, its own node carrying `pts`.
fn build_group_exec(
    g: &BlueprintGroup,
    map: &Vec<(BoneName, AnimatorData)>,
    parent: Option<usize>,
    base: usize,
    pts: Vec<AnimationPoint>,
) -> (r: Vec<AnimationTreeNode>)
    requires
        base + count_nodes(*g) <= usize::MAX,
    ensures
        views_of(r@) == build_group(*g, map@, opt_view(parent), base as int, pts@),
        r@.len() == count_nodes(*g),
    decreases *g,
{
    proof {
        lemma_count_nonneg(g.children@);
        assert(decreases_to!(*g => g.children));
        assert(decreases_to!(g.children => g.children@));
    }
    let ghost ptsv = pts@;
    let (mut kids, kid_idxs) = build_children_exec(&g.children, map, base, base + 1);
    let node = AnimationTreeNode {
        parent,
        children: kid_idxs,
        name: clone_bone_name(&g.name),
        points: pts,
    };
    let mut out: Vec<AnimationTreeNode> = Vec::new();
    out.push(node);
    let ghost out0 = out@;
    let ghost kids0 = kids@;
    out.append(&mut kids);
    proof {
        assert(out@ == out0 + kids0);
        lemma_build_children_len(g.children@, map@, base as int, base as int + 1);
        assert(views_of(out@) =~= build_group(*g, map@, opt_view(parent), base as int, ptsv));
    }
    out
}

impl AnimationTree {
    /// Mirrors the bone hierarchy rooted at `group` into an owned tree:
    /// one node per hierarchy group, the root carrying `points`, every
    /// other node carrying the merged samples found for its bone name
    /// (empty if unauthored).
    pub fn new_root(
        point_map: &Vec<(BoneName, AnimatorData)>,
        group: &BlueprintGroup,
        points: Vec<AnimationPoint>,
    ) -> (r: AnimationTree)
        requires
            count_nodes(*group) <= usize::MAX,
        ensures
            tree_view(r) == build_group(*group, point_map@, None, 0, points@),
            r.nodes@.len() == count_nodes(*group),
    {
        let ghost ptsv = points@;
        let nodes = build_group_exec(group, point_map, None, 0, points);
        let r = AnimationTree { nodes };
        proof {
            assert(tree_view(r) =~= views_of(r.nodes@));
        }
        r
    }

    /// The arena indices of the hierarchy's leaf nodes — the childless
    /// ones — in traversal order.
    pub fn flatten_leaves(&self) -> (r: Vec<usize>)
        ensures
            forall|m: int, p: int| 0 <= m < p < r@.len() ==> r@[m] < r@[p],
            forall|m: int|
                0 <= m < r@.len() ==> #[trigger] r@[m] < self.nodes@.len() && self.nodes@[r@[m] as int].children@.len() == 0,
            forall|k: int|
                0 <= k < self.nodes@.len() && (#[trigger] self.nodes@[k]).children@.len() == 0
                    ==> exists|m: int| 0 <= m < r@.len() && r@[m] == k,
    {
        let mut out: Vec<usize> = Vec::new();
        let n = self.nodes.len();
        let mut k: usize = 0;
        while k < n
            invariant
                n == self.nodes@.len(),
                k <= n,
                forall|m: int, p: int| 0 <= m < p < out@.len() ==> out@[m] < out@[p],
                forall|m: int| 0 <= m < out@.len() ==> out@[m] < k,
                forall|m: int|
                    0 <= m < out@.len() ==> #[trigger] out@[m] < self.nodes@.len()
                        && self.nodes@[out@[m] as int].children@.len() == 0,
                forall|j: int|
                    0 <= j < k && (#[trigger] self.nodes@[j]).children@.len() == 0 ==> exists|
                        m: int,
                    | 0 <= m < out@.len() && out@[m] == j,
            decreases n - k,
        {
            let ghost out0 = out@;
            if self.nodes[k].children.len() == 0 {
                out.push(k);
                proof {
                    assert(out@[out@.len() - 1] == k);
                }
            }
            proof {
                assert forall|j: int|
                    0 <= j < k + 1 && (#[trigger] self.nodes@[j]).children@.len() == 0
                        implies exists|m: int| 0 <= m < out@.len() && out@[m] == j by {
                    if j < k {
                        let m = choose|m: int| 0 <= m < out0.len() && out0[m] == j;
                        assert(out@[m] == j);
                    } else {
                        assert(out@[out@.len() - 1] == j);
                    }
                }
            }
            k += 1;
        }
        out
    }
}

/// The bone-name keys of a sequence of node shapes.
pub open spec fn keys_of(s: Seq<TreeNodeView>) -> Seq<(Seq<char>, Seq<char>)> {
    Seq::new(s.len(), |i: int| (s[i].name, s[i].raw_name))
}

/// The childless node shapes, in order.
pub open spec fn leaves_of(s: Seq<TreeNodeView>) -> Seq<TreeNodeView> {
    s.filter(|n: TreeNodeView| n.children.len() == 0)
}

/// The bone-name keys of a group's childless descendants (itself, if it
/// has no child groups), in traversal order.
pub open spec fn leaf_keys_group(g: BlueprintGroup) -> Seq<(Seq<char>, Seq<char>)>
    decreases g,
{
    if group_child_count(g.children@) == 0 {
        seq![(g.name.name@, g.name.raw_name@)]
    } else {
        leaf_keys_children(g.children@)
    }
}

/// The leaf keys contributed by the groups among these children.
pub open spec fn leaf_keys_children(s: Seq<BlueprintChildren>) -> Seq<(Seq<char>, Seq<char>)>
    decreases s,
{
    if s.len() == 0 {
        Seq::empty()
    } else {
        (match s[0] {
            BlueprintChildren::Element(_) => Seq::empty(),
            BlueprintChildren::Group(bg) => leaf_keys_group(bg),
        }) + leaf_keys_children(s.drop_first())
    }
}

/// Law: the tree's childless nodes are exactly the hierarchy's leaf
/// groups, in traversal order — as many as there are childless groups,
/// under the same bone names.
pub proof fn lemma_tree_leaves(
    g: BlueprintGroup,
    map: Seq<(BoneName, AnimatorData)>,
    parent: Option<int>,
    base: int,
    pts: Seq<AnimationPoint>,
)
    ensures
        keys_of(leaves_of(build_group(g, map, parent, base, pts))) == leaf_keys_group(g),
        leaves_of(build_group(g, map, parent, base, pts)).len() == leaf_keys_group(g).len(),
    decreases g,
{
    let kids = build_children(g.children@, map, base, base + 1);
    let root = TreeNodeView {
        parent,
        children: kids.1,
        name: g.name.name@,
        raw_name: g.name.raw_name@,
        tags: g.name.tags@,
        points: pts,
    };
    let v = build_group(g, map, parent, base, pts);
    let pred = |n: TreeNodeView| n.children.len() == 0;
    assert(v == seq![root] + kids.0);
    Seq::filter_distributes_over_add(seq![root], kids.0, pred);
    lemma_build_children_len(g.children@, map, base, base + 1);
    lemma_count_nonneg(g.children@);
    lemma_tree_leaves_children(g.children@, map, base, base + 1);
    if group_child_count(g.children@) == 0 {
        assert(kids.1.len() == 0);
        assert(kids.0.len() == 0);
        assert(pred(root));
        reveal_with_fuel(Seq::filter, 2);
        assert(seq![root].drop_last() =~= Seq::<TreeNodeView>::empty());
        assert(seq![root].filter(pred) =~= seq![root]);
        assert(kids.0 =~= Seq::<TreeNodeView>::empty());
        assert(kids.0.filter(pred) =~= Seq::<TreeNodeView>::empty());
        assert(leaves_of(v) =~= seq![root]);
        assert(keys_of(leaves_of(v)) =~= leaf_keys_group(g));
    } else {
        assert(kids.1.len() > 0);
        assert(!pred(root));
        reveal_with_fuel(Seq::filter, 2);
        assert(seq![root].drop_last() =~= Seq::<TreeNodeView>::empty());
        assert(seq![root].filter(pred) =~= Seq::<TreeNodeView>::empty());
        assert(leaves_of(v) =~= kids.0.filter(pred));
        assert(keys_of(leaves_of(v)) =~= leaf_keys_group(g));
    }
}

/// As [`lemma_tree_leaves`], over the groups among a child list.
proof fn lemma_tree_leaves_children(
    s: Seq<BlueprintChildren>,
    map: Seq<(BoneName, AnimatorData)>,
    parent: int,
    base: int,
)
    ensures
        keys_of(leaves_of(build_children(s, map, parent, base).0)) == leaf_keys_children(s),
    decreases s,
{
    let pred = |n: TreeNodeView| n.children.len() == 0;
    if s.len() == 0 {
        reveal_with_fuel(Seq::filter, 1);
        assert(build_children(s, map, parent, base).0.filter(pred) =~= Seq::<
            TreeNodeView,
        >::empty());
        assert(keys_of(leaves_of(build_children(s, map, parent, base).0)) =~= leaf_keys_children(
            s,
        ));
    } else {
        match s[0] {
            BlueprintChildren::Element(_) => {
                lemma_tree_leaves_children(s.drop_first(), map, parent, base);
                assert(leaf_keys_children(s) =~= leaf_keys_children(s.drop_first()));
            },
            BlueprintChildren::Group(bg) => {
                let sub = build_group(bg, map, Some(parent), base, group_points(map, bg.name));
                let rest = build_children(s.drop_first(), map, parent, base + count_nodes(bg));
                lemma_tree_leaves(bg, map, Some(parent), base, group_points(map, bg.name));
                lemma_tree_leaves_children(
                    s.drop_first(),
                    map,
                    parent,
                    base + count_nodes(bg),
                );
                Seq::filter_distributes_over_add(sub, rest.0, pred);
                assert(build_children(s, map, parent, base).0 == sub + rest.0);
                assert(keys_of(sub.filter(pred) + rest.0.filter(pred)) =~= keys_of(
                    sub.filter(pred),
                ) + keys_of(rest.0.filter(pred)));
                assert(keys_of(leaves_of(build_children(s, map, parent, base).0))
                    =~= leaf_keys_group(bg) + leaf_keys_children(s.drop_first()));
                assert(leaf_keys_children(s) =~= leaf_keys_group(bg) + leaf_keys_children(
                    s.drop_first(),
                ));
            },
        }
    }
}

/// A merged sample sequence as playback movements: each point's time with
/// its three channel vectors.
pub open spec fn movements_of(points: Seq<AnimationPoint>) -> Seq<AnimationMovement> {
    Seq::new(
        points.len(),
        |k: int|
            AnimationMovement {
                time: points[k].position.time,
                transform: points[k].position.vector,
                scale: points[k].scale.vector,
                rotation: points[k].rotation.vector,
            },
    )
}

/// The two-point placeholder track spanning the animation: a zero
/// movement at time zero and one at the animation's length.
pub open spec fn placeholder_track(length: u32) -> Seq<AnimationMovement> {
    seq![
        AnimationMovement::zero_spec(),
        AnimationMovement { time: length, ..AnimationMovement::zero_spec() },
    ]
}

/// The bone-name keys of a keyed list.
pub open spec fn pair_keys<V>(m: Seq<(BoneName, V)>) -> Seq<(Seq<char>, Seq<char>)> {
    Seq::new(m.len(), |i: int| (m[i].0.name@, m[i].0.raw_name@))
}

/// The leaf keys that still need a placeholder: those no map entry and no
/// earlier leaf already covers, in traversal order.
pub open spec fn placeholder_keys(
    keys: Seq<(Seq<char>, Seq<char>)>,
    have: Seq<(Seq<char>, Seq<char>)>,
) -> Seq<(Seq<char>, Seq<char>)>
    decreases keys.len(),
{
    if keys.len() == 0 {
        Seq::empty()
    } else {
        let d = placeholder_keys(keys.drop_last(), have);
        if have.contains(keys.last()) || exists|i: int|
            0 <= i < keys.len() - 1 && keys[i] == keys.last() {
            d
        } else {
            d.push(keys.last())
        }
    }
}

/// A key lands among the placeholders exactly when some leaf carries it
/// and no map entry does.
proof fn lemma_placeholder_has(
    keys: Seq<(Seq<char>, Seq<char>)>,
    have: Seq<(Seq<char>, Seq<char>)>,
    k: (Seq<char>, Seq<char>),
)
    ensures
        placeholder_keys(keys, have).contains(k) == (keys.contains(k) && !have.contains(k)),
    decreases keys.len(),
{
    if keys.len() > 0 {
        lemma_placeholder_has(keys.drop_last(), have, k);
        let d = placeholder_keys(keys.drop_last(), have);
        if have.contains(keys.last()) || exists|i: int|
            0 <= i < keys.len() - 1 && keys[i] == keys.last() {
            if keys.contains(k) && !have.contains(k) {
                let m = choose|m: int| 0 <= m < keys.len() && keys[m] == k;
                if m == keys.len() - 1 {
                    let e = choose|i: int| 0 <= i < keys.len() - 1 && keys[i] == keys.last();
                    assert(keys.drop_last()[e] == k);
                    assert(keys.drop_last().contains(k));
                } else {
                    assert(keys.drop_last()[m] == k);
                    assert(keys.drop_last().contains(k));
                }
            }
            if keys.drop_last().contains(k) {
                let m = choose|m: int| 0 <= m < keys.len() - 1 && keys.drop_last()[m] == k;
                assert(keys[m] == k);
                assert(keys.contains(k));
            }
        } else {
            let whole = placeholder_keys(keys, have);
            if keys.contains(k) && !have.contains(k) {
                let m = choose|m: int| 0 <= m < keys.len() && keys[m] == k;
                if m == keys.len() - 1 {
                    assert(whole[whole.len() - 1] == k);
                    assert(whole.contains(k));
                } else {
                    assert(keys.drop_last()[m] == k);
                    assert(keys.drop_last().contains(k));
                    let q = choose|q: int| 0 <= q < d.len() && d[q] == k;
                    assert(whole[q] == k);
                    assert(whole.contains(k));
                }
            }
            if whole.contains(k) {
                let q = choose|q: int| 0 <= q < whole.len() && whole[q] == k;
                if q < d.len() {
                    assert(d.contains(k));
                    let m = choose|m: int|
                        0 <= m < keys.len() - 1 && keys.drop_last()[m] == k;
                    assert(keys[m] == k);
                    assert(keys.contains(k));
                } else {
                    assert(k == keys.last());
                    assert(keys.contains(k));
                }
            }
        }
    }
}

/// Converts a merged sample list into playback movements.
fn movements_exec(v: &Vec<AnimationPoint>) -> (r: Vec<AnimationMovement>)
    ensures
        r@ == movements_of(v@),
{
    let mut out: Vec<AnimationMovement> = Vec::new();
    let mut k: usize = 0;
    while k < v.len()
        invariant
            k <= v@.len(),
            out@.len() == k,
            forall|m: int| 0 <= m < k ==> out@[m] == movements_of(v@)[m],
        decreases v@.len() - k,
    {
        let p = v[k];
        out.push(
            AnimationMovement {
                time: p.position.time,
                transform: p.position.vector,
                scale: p.scale.vector,
                rotation: p.rotation.vector,
            },
        );
        k += 1;
    }
    proof {
        assert(out@ =~= movements_of(v@));
    }
    out
}

/// Whether the keyed list carries an entry under the bone name.
fn has_key_exec(m: &Vec<(BoneName, BlueprintAnimator)>, k: &BoneName) -> (r: bool)
    ensures
        r == pair_keys(m@).contains((k.name@, k.raw_name@)),
{
    let n = m.len();
    let mut i: usize = 0;
    while i < n
        invariant
            n == m@.len(),
            i <= n,
            forall|j: int| 0 <= j < i ==> pair_keys(m@)[j] != ((k.name@, k.raw_name@)),
        decreases n - i,
    {
        let entry = &m[i];
        if entry.0 == *k {
            proof {
                assert(pair_keys(m@)[i as int] == ((k.name@, k.raw_name@)));
                assert(pair_keys(m@).contains((k.name@, k.raw_name@)));
            }
            return true;
        }
        i += 1;
    }
    proof {
        if pair_keys(m@).contains((k.name@, k.raw_name@)) {
            let j = choose|j: int|
                0 <= j < pair_keys(m@).len() && pair_keys(m@)[j] == ((k.name@, k.raw_name@));
            assert(false);
        }
    }
    false
}

/// The bone names of the hierarchy's leaf groups, in traversal order.
fn collect_leaf_names(g: &BlueprintGroup) -> (r: Vec<BoneName>)
    ensures
        Seq::new(r@.len(), |i: int| (r@[i].name@, r@[i].raw_name@)) == leaf_keys_group(*g),
    decreases *g,
{
    proof {
        assert(decreases_to!(*g => g.children));
        assert(decreases_to!(g.children => g.children@));
    }
    let n = g.children.len();
    let mut group_children: usize = 0;
    let mut i: usize = 0;
    while i < n
        invariant
            n == g.children@.len(),
            i <= n,
            group_children as int == group_child_count(g.children@.subrange(0, i as int)),
            group_children <= i,
        decreases n - i,
    {
        let ghost pre = g.children@.subrange(0, i as int);
        let ghost pre1 = g.children@.subrange(0, i as int + 1);
        proof {
            lemma_group_count_snoc(pre1);
            assert(pre1.drop_last() =~= pre);
            assert(pre1.last() == g.children@[i as int]);
        }
        match &g.children[i] {
            BlueprintChildren::Element(_) => {},
            BlueprintChildren::Group(_) => {
                group_children += 1;
            },
        }
        i += 1;
    }
    proof {
        assert(g.children@.subrange(0, n as int) =~= g.children@);
    }
    if group_children == 0 {
        let mut out: Vec<BoneName> = Vec::new();
        out.push(clone_bone_name(&g.name));
        proof {
            assert(Seq::new(out@.len(), |i: int| (out@[i].name@, out@[i].raw_name@))
                =~= leaf_keys_group(*g));
        }
        return out;
    }
    let mut out: Vec<BoneName> = Vec::new();
    let mut i: usize = 0;
    proof {
        assert(g.children@.subrange(0, g.children@.len() as int) =~= g.children@);
    }
    while i < n
        invariant
            n == g.children@.len(),
            i <= n,
            group_child_count(g.children@) > 0,
            Seq::new(out@.len(), |q: int| (out@[q].name@, out@[q].raw_name@))
                + leaf_keys_children(g.children@.subrange(i as int, n as int))
                == leaf_keys_children(g.children@),
        decreases n - i,
    {
        let ghost before = g.children@.subrange(i as int, n as int);
        let ghost after = g.children@.subrange(i as int + 1, n as int);
        proof {
            assert(before.len() > 0);
            assert(before[0] == g.children@[i as int]);
            assert(before.drop_first() =~= after);
        }
        match &g.children[i] {
            BlueprintChildren::Element(_) => {
                proof {
                    assert(leaf_keys_children(before) =~= leaf_keys_children(after));
                }
            },
            BlueprintChildren::Group(bg) => {
                proof {
                    assert(decreases_to!(g.children@ => g.children@[i as int]));
                    assert(decreases_to!(g.children@[i as int] => (g.children@[
                        i as int
                    ])->Group_0));
                    assert((g.children@[i as int])->Group_0 == *bg);
                }
                let mut sub = collect_leaf_names(bg);
                let ghost out0 = out@;
                let ghost sub0 = sub@;
                out.append(&mut sub);
                proof {
                    assert(out@ == out0 + sub0);
                    assert(Seq::new(out@.len(), |q: int| (out@[q].name@, out@[q].raw_name@))
                        =~= Seq::new(out0.len(), |q: int| (out0[q].name@, out0[q].raw_name@))
                        + Seq::new(sub0.len(), |q: int| (sub0[q].name@, sub0[q].raw_name@)));
                    assert(leaf_keys_children(before) =~= leaf_keys_group(*bg)
                        + leaf_keys_children(after));
                }
            },
        }
        i += 1;
    }
    proof {
        assert(g.children@.subrange(n as int, n as int) =~= Seq::<BlueprintChildren>::empty());
        assert(leaf_keys_children(Seq::<BlueprintChildren>::empty()) =~= Seq::<(
            Seq<char>,
            Seq<char>,
        )>::empty());
        assert(Seq::new(out@.len(), |q: int| (out@[q].name@, out@[q].raw_name@))
            =~= leaf_keys_children(g.children@));
        assert(leaf_keys_group(*g) == leaf_keys_children(g.children@));
    }
    out
}

/// Counting child groups one child at a time.
proof fn lemma_group_count_snoc(s: Seq<BlueprintChildren>)
    requires
        s.len() > 0,
    ensures
        group_child_count(s) == group_child_count(s.drop_last()) + (match s.last() {
            BlueprintChildren::Element(_) => 0int,
            BlueprintChildren::Group(_) => 1int,
        }),
    decreases s.len(),
{
    if s.len() > 1 {
        lemma_group_count_snoc(s.drop_first());
        assert(s.drop_first().drop_last() =~= s.drop_last().drop_first());
        assert(s.drop_first().last() == s.last());
        assert(s.drop_last()[0] == s[0]);
        assert(group_child_count(s) == (match s[0] {
            BlueprintChildren::Element(_) => 0int,
            BlueprintChildren::Group(_) => 1int,
        }) + group_child_count(s.drop_first()));
        assert(s.drop_last().len() > 0);
        assert(group_child_count(s.drop_last()) == (match s.drop_last()[0] {
            BlueprintChildren::Element(_) => 0int,
            BlueprintChildren::Group(_) => 1int,
        }) + group_child_count(s.drop_last().drop_first()));
        match s.last() {
            BlueprintChildren::Element(_) => {
                assert(group_child_count(s) == group_child_count(s.drop_last()));
            },
            BlueprintChildren::Group(_) => {
                assert(group_child_count(s) == group_child_count(s.drop_last()) + 1);
            },
        }
    } else {
        assert(s.drop_last() =~= Seq::<BlueprintChildren>::empty());
        assert(group_child_count(s.drop_last()) == 0);
        assert(s.last() == s[0]);
        assert(s.drop_first().len() == 0);
        assert(group_child_count(s.drop_first()) == 0);
        match s.last() {
            BlueprintChildren::Element(_) => {
                assert(group_child_count(s) == 0);
            },
            BlueprintChildren::Group(_) => {
                assert(group_child_count(s) == 1);
            },
        }
    }
}

/// The groups among a child list, in order.
pub open spec fn groups_of(s: Seq<BlueprintChildren>) -> Seq<BlueprintGroup>
    decreases s.len(),
{
    if s.len() == 0 {
        Seq::empty()
    } else {
        (match s[0] {
            BlueprintChildren::Element(_) => Seq::empty(),
            BlueprintChildren::Group(bg) => seq![bg],
        }) + groups_of(s.drop_first())
    }
}

/// Group collection distributes over concatenation.
proof fn lemma_groups_of_concat(a: Seq<BlueprintChildren>, b: Seq<BlueprintChildren>)
    ensures
        groups_of(a + b) == groups_of(a) + groups_of(b),
    decreases a.len(),
{
    if a.len() == 0 {
        assert(a + b =~= b);
        assert(groups_of(a) =~= Seq::<BlueprintGroup>::empty());
        assert(groups_of(a) + groups_of(b) =~= groups_of(b));
    } else {
        lemma_groups_of_concat(a.drop_first(), b);
        assert((a + b).len() > 0);
        assert((a + b)[0] == a[0]);
        assert((a + b).drop_first() =~= a.drop_first() + b);
        assert(groups_of(a + b) =~= (match a[0] {
            BlueprintChildren::Element(_) => Seq::<BlueprintGroup>::empty(),
            BlueprintChildren::Group(bg) => seq![bg],
        }) + (groups_of(a.drop_first()) + groups_of(b)));
        assert(groups_of(a) + groups_of(b) =~= (match a[0] {
            BlueprintChildren::Element(_) => Seq::<BlueprintGroup>::empty(),
            BlueprintChildren::Group(bg) => seq![bg],
        }) + (groups_of(a.drop_first()) + groups_of(b)));
    }
}

/// Walks raw animation definitions into per-bone merged data and mirrors
/// the hierarchy around the result.
pub struct AnimationGenerator {
    pub point_map: Vec<(BoneName, AnimatorData)>,
    pub trees: Vec<AnimationTree>,
}

impl AnimationGenerator {
    /// Builds one mirrored tree per top-level hierarchy group, each node
    /// attached to its merged samples, the roots with none.
    pub fn new(point_map: Vec<(BoneName, AnimatorData)>, children: Vec<BlueprintChildren>) -> (r:
        AnimationGenerator)
        requires
            forall|j: int|
                0 <= j < groups_of(children@).len() ==> count_nodes(
                    #[trigger] groups_of(children@)[j],
                ) <= usize::MAX,
        ensures
            r.point_map@ == point_map@,
            r.trees@.len() == groups_of(children@).len(),
            forall|j: int|
                0 <= j < r.trees@.len() ==> tree_view(#[trigger] r.trees@[j]) == build_group(
                    groups_of(children@)[j],
                    point_map@,
                    None,
                    0,
                    Seq::empty(),
                ),
    {
        let mut trees: Vec<AnimationTree> = Vec::new();
        let n = children.len();
        let mut i: usize = 0;
        proof {
            assert(children@.subrange(0, 0) =~= Seq::<BlueprintChildren>::empty());
            assert(groups_of(children@.subrange(0, 0)) =~= Seq::<BlueprintGroup>::empty());
        }
        while i < n
            invariant
                n == children@.len(),
                i <= n,
                forall|j: int|
                    0 <= j < groups_of(children@).len() ==> count_nodes(
                        #[trigger] groups_of(children@)[j],
                    ) <= usize::MAX,
                trees@.len() == groups_of(children@.subrange(0, i as int)).len(),
                groups_of(children@.subrange(0, i as int)) == groups_of(children@).subrange(
                    0,
                    trees@.len() as int,
                ),
                forall|j: int|
                    0 <= j < trees@.len() ==> tree_view(#[trigger] trees@[j]) == build_group(
                        groups_of(children@.subrange(0, i as int))[j],
                        point_map@,
                        None,
                        0,
                        Seq::empty(),
                    ),
            decreases n - i,
        {
            let ghost pre = children@.subrange(0, i as int);
            let ghost pre1 = children@.subrange(0, i as int + 1);
            let ghost rest = children@.subrange(i as int, n as int);
            proof {
                assert(pre1 =~= pre + seq![children@[i as int]]);
                lemma_groups_of_concat(pre, seq![children@[i as int]]);
                assert(seq![children@[i as int]].drop_first() =~= Seq::<
                    BlueprintChildren,
                >::empty());
                assert(children@ =~= pre1 + children@.subrange(i as int + 1, n as int));
                lemma_groups_of_concat(pre1, children@.subrange(i as int + 1, n as int));
            }
            match &children[i] {
                BlueprintChildren::Element(_) => {
                    proof {
                        let single = seq![children@[i as int]];
                        assert(single[0] == children@[i as int]);
                        assert(single.drop_first() =~= Seq::<BlueprintChildren>::empty());
                        assert(groups_of(single.drop_first()) =~= Seq::<BlueprintGroup>::empty());
                        assert(groups_of(single) =~= Seq::<BlueprintGroup>::empty());
                        assert(groups_of(pre1) =~= groups_of(pre));
                    }
                },
                BlueprintChildren::Group(bg) => {
                    proof {
                        let single = seq![children@[i as int]];
                        assert(single[0] == children@[i as int]);
                        assert(single.drop_first() =~= Seq::<BlueprintChildren>::empty());
                        assert(groups_of(single.drop_first()) =~= Seq::<BlueprintGroup>::empty());
                        assert(groups_of(single) =~= seq![*bg]);
                        assert(groups_of(pre1) =~= groups_of(pre).push(*bg));
                        assert(groups_of(children@).subrange(0, trees@.len() as int + 1)
                            =~= groups_of(pre1));
                        assert(groups_of(children@)[trees@.len() as int] == *bg);
                    }
                    let tree = AnimationTree::new_root(&point_map, bg, Vec::new());
                    trees.push(tree);
                },
            }
            i += 1;
        }
        proof {
            assert(children@.subrange(0, n as int) =~= children@);
            assert(groups_of(children@).subrange(0, groups_of(children@).len() as int)
                =~= groups_of(children@));
        }
        AnimationGenerator { point_map, trees }
    }

    /// Converts the generated per-bone data into playback movement tracks
    /// and completes the cross-reference with the hierarchy: every leaf
    /// bone lacking authored data still resolves to the two-point
    /// placeholder spanning the animation rather than an absence.
    pub fn create_movements(
        group: &BlueprintGroup,
        point_map: Vec<(BoneName, AnimatorData)>,
        length: u32,
    ) -> (r: Vec<(BoneName, BlueprintAnimator)>)
        ensures
            r@.len() == point_map@.len() + placeholder_keys(
                leaf_keys_group(*group),
                pair_keys(point_map@),
            ).len(),
            forall|i: int|
                0 <= i < point_map@.len() ==> (#[trigger] r@[i]).0 == point_map@[i].0
                    && r@[i].1.name == point_map@[i].1.name
                    && r@[i].1.key_frame@ == movements_of(point_map@[i].1.points@),
            pair_keys(r@).subrange(point_map@.len() as int, r@.len() as int)
                == placeholder_keys(leaf_keys_group(*group), pair_keys(point_map@)),
            forall|j: int|
                point_map@.len() <= j < r@.len() ==> (#[trigger] r@[j]).1.key_frame@
                    == placeholder_track(length) && r@[j].1.name@ == r@[j].0.raw_name@,
    {
        let ghost pm = point_map@;
        let mut pmv = point_map;
        let mut out: Vec<(BoneName, BlueprintAnimator)> = Vec::new();
        let n0 = pmv.len();
        proof {
            assert(pm.subrange(0, pm.len() as int) =~= pm);
        }
        while pmv.len() > 0
            invariant
                pm.len() <= usize::MAX,
                out@.len() + pmv@.len() == pm.len(),
                pmv@ == pm.subrange(out@.len() as int, pm.len() as int),
                forall|i: int|
                    0 <= i < out@.len() ==> (#[trigger] out@[i]).0 == pm[i].0
                        && out@[i].1.name == pm[i].1.name
                        && out@[i].1.key_frame@ == movements_of(pm[i].1.points@),
            decreases pmv@.len(),
        {
            let ghost k = out@.len();
            let entry = pmv.remove(0);
            proof {
                assert(entry == pm[k as int]);
                assert(pmv@ =~= pm.subrange(k as int + 1, pm.len() as int));
            }
            let moves = movements_exec(&entry.1.points);
            out.push((entry.0, BlueprintAnimator { name: entry.1.name, key_frame: moves }));
        }
        let ghost lk = leaf_keys_group(*group);
        let mut leaves = collect_leaf_names(group);
        let ghost lnames = leaves@;
        let lcount = leaves.len();
        proof {
            assert(lk.len() == lnames.len());
            assert(lnames.len() == lcount);
            assert(pair_keys(out@) =~= pair_keys(pm));
            assert(lk.subrange(0, 0) =~= Seq::<(Seq<char>, Seq<char>)>::empty());
            assert(placeholder_keys(lk.subrange(0, 0), pair_keys(pm)) =~= Seq::<(
                Seq<char>,
                Seq<char>,
            )>::empty());
            assert(pair_keys(out@).subrange(pm.len() as int, pair_keys(out@).len() as int)
                =~= placeholder_keys(lk.subrange(0, 0), pair_keys(pm)));
        }
        let mut t: usize = 0;
        while leaves.len() > 0
            invariant
                lk.len() <= usize::MAX,
                t + leaves@.len() == lk.len(),
                Seq::new(leaves@.len(), |q: int| ((leaves@[q].name@, leaves@[q].raw_name@)))
                    == lk.subrange(t as int, lk.len() as int),
                out@.len() == pm.len() + placeholder_keys(
                    lk.subrange(0, t as int),
                    pair_keys(pm),
                ).len(),
                pair_keys(out@) == pair_keys(pm) + placeholder_keys(
                    lk.subrange(0, t as int),
                    pair_keys(pm),
                ),
                forall|i: int|
                    0 <= i < pm.len() ==> (#[trigger] out@[i]).0 == pm[i].0
                        && out@[i].1.name == pm[i].1.name
                        && out@[i].1.key_frame@ == movements_of(pm[i].1.points@),
                forall|j: int|
                    pm.len() <= j < out@.len() ==> (#[trigger] out@[j]).1.key_frame@
                        == placeholder_track(length) && out@[j].1.name@ == out@[j].0.raw_name@,
            decreases leaves@.len(),
        {
            let ghost lv = leaves@;
            let leaf = leaves.remove(0);
            proof {
                assert(leaf == lv[0]);
                assert(Seq::new(lv.len(), |p: int| ((lv[p].name@, lv[p].raw_name@)))[0] == ((
                    lv[0].name@,
                    lv[0].raw_name@,
                )));
                assert(lk.subrange(t as int, lk.len() as int)[0] == lk[t as int]);
                assert((leaf.name@, leaf.raw_name@) == lk[t as int]);
                assert(leaves@ =~= lv.subrange(1, lv.len() as int));
                assert forall|q: int|
                    0 <= q < leaves@.len() implies ((leaves@[q].name@, leaves@[q].raw_name@))
                    == lk[t as int + 1 + q] by {
                    assert(leaves@[q] == lv[q + 1]);
                    assert(Seq::new(lv.len(), |p: int| ((lv[p].name@, lv[p].raw_name@)))[q + 1]
                        == lk.subrange(t as int, lk.len() as int)[q + 1]);
                }
                assert(Seq::new(leaves@.len(), |q: int| ((leaves@[q].name@, leaves@[q].raw_name@)))
                    =~= lk.subrange(t as int + 1, lk.len() as int));
            }
            let present = has_key_exec(&out, &leaf);
            let ghost prefix = lk.subrange(0, t as int);
            let ghost prefix1 = lk.subrange(0, t as int + 1);
            let ghost have = pair_keys(pm);
            proof {
                assert(prefix1.drop_last() =~= prefix);
                assert(prefix1.last() == lk[t as int]);
                lemma_placeholder_has(prefix, have, lk[t as int]);
                assert(pair_keys(out@).contains(lk[t as int]) == (have.contains(lk[t as int])
                    || placeholder_keys(prefix, have).contains(lk[t as int]))) by {
                    let pk = pair_keys(out@);
                    if pk.contains(lk[t as int]) {
                        let q = choose|q: int| 0 <= q < pk.len() && pk[q] == lk[t as int];
                        if q < pm.len() {
                            assert(have[q] == lk[t as int]);
                            assert(have.contains(lk[t as int]));
                        } else {
                            assert(placeholder_keys(prefix, have)[q - pm.len()] == lk[t as int]);
                            assert(placeholder_keys(prefix, have).contains(lk[t as int]));
                        }
                    }
                    if have.contains(lk[t as int]) {
                        let q = choose|q: int| 0 <= q < have.len() && have[q] == lk[t as int];
                        assert(pk[q] == lk[t as int]);
                        assert(pk.contains(lk[t as int]));
                    }
                    if placeholder_keys(prefix, have).contains(lk[t as int]) {
                        let q = choose|q: int|
                            0 <= q < placeholder_keys(prefix, have).len() && placeholder_keys(
                                prefix,
                                have,
                            )[q] == lk[t as int];
                        assert(pk[pm.len() + q] == lk[t as int]);
                        assert(pk.contains(lk[t as int]));
                    }
                }
                assert((exists|i: int| 0 <= i < prefix1.len() - 1 && prefix1[i]
                    == prefix1.last()) == prefix.contains(lk[t as int])) by {
                    if exists|i: int| 0 <= i < prefix1.len() - 1 && prefix1[i]
                        == prefix1.last() {
                        let i = choose|i: int|
                            0 <= i < prefix1.len() - 1 && prefix1[i] == prefix1.last();
                        assert(prefix[i] == lk[t as int]);
                    }
                    if prefix.contains(lk[t as int]) {
                        let i = choose|i: int|
                            0 <= i < prefix.len() && prefix[i] == lk[t as int];
                        assert(prefix1[i] == prefix1.last());
                    }
                }
            }
            if !present {
                let nm = leaf.raw_name.clone();
                let mut track: Vec<AnimationMovement> = Vec::new();
                track.push(AnimationMovement::new(
                    0,
                    Vec3::new(0, 0, 0),
                    Vec3::new(0, 0, 0),
                    Vec3::new(0, 0, 0),
                ));
                track.push(AnimationMovement::from_lenght(length));
                proof {
                    assert(track@ =~= placeholder_track(length));
                }
                let ghost out0 = out@;
                let ghost leafkey = ((leaf.name@, leaf.raw_name@));
                out.push((leaf, BlueprintAnimator { name: nm, key_frame: track }));
                proof {
                    assert(placeholder_keys(prefix1, have) =~= placeholder_keys(
                        prefix,
                        have,
                    ).push(lk[t as int]));
                    let rhs = pair_keys(pm) + placeholder_keys(prefix1, have);
                    assert(pair_keys(out@).len() == rhs.len());
                    assert forall|j: int|
                        0 <= j < pair_keys(out@).len() implies pair_keys(out@)[j] == rhs[j] by {
                        if j < out0.len() {
                            assert(out@[j] == out0[j]);
                            assert(pair_keys(out0)[j] == (pair_keys(pm) + placeholder_keys(
                                prefix,
                                have,
                            ))[j]);
                        } else {
                            assert(out@[j].0.name@ == leafkey.0);
                            assert(out@[j].0.raw_name@ == leafkey.1);
                            assert(rhs[j] == placeholder_keys(prefix1, have).last());
                            assert(rhs[j] == lk[t as int]);
                        }
                    }
                    assert(pair_keys(out@) =~= rhs);
                }
            } else {
                proof {
                    assert(placeholder_keys(prefix1, have) =~= placeholder_keys(prefix, have));
                }
            }
            t += 1;
        }
        proof {
            assert(lk.subrange(0, lk.len() as int) =~= lk);
            assert(pair_keys(out@).subrange(pm.len() as int, pair_keys(out@).len() as int)
                =~= placeholder_keys(lk, pair_keys(pm)));
        }
        out
    }
}

/// A field-for-field copy of a raw sample.
fn clone_data_point(d: &DataPoint) -> (r: DataPoint)
    ensures
        r == *d,
{
    DataPoint { x: d.x, y: d.y, z: d.z, script: d.script.clone() }
}

/// A copy of everything the channel builder reads from a keyframe.
fn clone_keyframe(kf: &ModelKeyFrame) -> (r: ModelKeyFrame)
    ensures
        kf_view(r) == kf_view(*kf),
{
    let mut data_points: Vec<DataPoint> = Vec::new();
    let mut i: usize = 0;
    while i < kf.data_points.len()
        invariant
            i <= kf.data_points@.len(),
            data_points@ == kf.data_points@.subrange(0, i as int),
        decreases kf.data_points@.len() - i,
    {
        data_points.push(clone_data_point(&kf.data_points[i]));
        proof {
            assert(data_points@ =~= kf.data_points@.subrange(0, i as int + 1));
        }
        i += 1;
    }
    proof {
        assert(kf.data_points@.subrange(0, kf.data_points@.len() as int) =~= kf.data_points@);
    }
    let interpolation = match &kf.interpolation {
        Some(n) => Some(n.clone()),
        None => None,
    };
    ModelKeyFrame {
        channel: kf.channel,
        data_points,
        bezier_left_time: kf.bezier_left_time,
        bezier_left_value: kf.bezier_left_value,
        bezier_right_time: kf.bezier_right_time,
        bezier_right_value: kf.bezier_right_value,
        interpolation,
        uuid: kf.uuid.clone(),
        time: kf.time,
    }
}

/// A copy of an animator's keyframes, as the channel builder reads them.
fn clone_keyframes(v: &Vec<ModelKeyFrame>) -> (r: Vec<ModelKeyFrame>)
    ensures
        kf_views(r@) == kf_views(v@),
{
    let mut out: Vec<ModelKeyFrame> = Vec::new();
    let mut i: usize = 0;
    while i < v.len()
        invariant
            i <= v@.len(),
            out@.len() == i,
            kf_views(out@) == kf_views(v@).subrange(0, i as int),
        decreases v@.len() - i,
    {
        out.push(clone_keyframe(&v[i]));
        proof {
            assert(kf_views(out@) =~= kf_views(v@).subrange(0, i as int + 1));
        }
        i += 1;
    }
    proof {
        assert(kf_views(v@).subrange(0, kf_views(v@).len() as int) =~= kf_views(v@));
        assert(kf_views(out@) =~= kf_views(v@));
    }
    out
}

/// What a run of keyframes contributes to one channel, in order: the
/// converted samples of every frame on that channel within the length
/// bound.
pub open spec fn channel_points_upto(
    kfs: Seq<KfView>,
    length: u32,
    ch: KeyFrameChannel,
) -> Seq<VectorPoint>
    decreases kfs.len(),
{
    if kfs.len() == 0 {
        Seq::empty()
    } else {
        channel_points_upto(kfs.drop_last(), length, ch) + (
        if kfs.last().time <= length && kfs.last().channel == ch {
            keyframe_points(kfs.last())
        } else {
            Seq::empty()
        })
    }
}

/// Whether an animator entry drives bone motion: it names a bone and its
/// id is not the reserved script marker.
pub open spec fn targets(entries: Seq<(String, ModelAnimator)>, i: int) -> bool {
    &&& entries[i].1.name is Some
    &&& entries[i].0@ != "effect"@
}

/// The bone-name key an animator entry resolves to under the registry.
pub open spec fn entry_key(tags: Seq<BoneTag>, a: ModelAnimator) -> (Seq<char>, Seq<char>)
    recommends
        a.name is Some,
{
    (parsed_base_name(tags, a.name->0@), a.name->0@)
}

/// Whether some entry defines the script channel: the reserved id
/// `"effect"` with a bone name present.
pub open spec fn has_effect(entries: Seq<(String, ModelAnimator)>) -> bool {
    exists|i: int| 0 <= i < entries.len() && entries[i].0@ == "effect"@ && entries[i].1.name is Some
}

/// Keys of a bone-keyed list never repeat.
pub open spec fn unique_bone_keys<V>(m: Seq<(BoneName, V)>) -> bool {
    forall|p: int, q: int| 0 <= p < q < m.len() ==> !same_bone(m[p].0, m[q].0)
}

/// One generated map entry is right for the animation: it comes from the
/// latest motion entry that resolves to its key, carries that entry's raw
/// bone name, and its points are the merge of that entry's sorted,
/// bound-filtered, deduplicated channels.
pub open spec fn good_map_entry(
    tags: Seq<BoneTag>,
    anim: ModelAnimation,
    upto: int,
    e: (BoneName, AnimatorData),
) -> bool {
    let entries = anim.animators@;
    exists|i: int|
        {
            let kfs = sort_kfv(kf_views(entries[i].1.keyframes@));
            &&& 0 <= i < upto
            &&& #[trigger] targets(entries, i)
            &&& is_parsed(tags, entries[i].1.name->0@, e.0)
            &&& (forall|j: int|
                i < j < upto && #[trigger] targets(entries, j) ==> entry_key(tags, entries[j].1)
                    != entry_key(tags, entries[i].1))
            &&& e.1.name@ == entries[i].1.name->0@
            &&& is_merged(
                anim.length,
                dedup_times(channel_points_upto(kfs, anim.length, KeyFrameChannel::Position)),
                dedup_times(channel_points_upto(kfs, anim.length, KeyFrameChannel::Rotation)),
                dedup_times(channel_points_upto(kfs, anim.length, KeyFrameChannel::Scale)),
                e.1.points@,
            )
        }
}

/// The generated per-bone map is right for the animation: unique keys,
/// every entry good, and every motion entry represented. The map is keyed;
/// the order its entries sit in carries no meaning.
pub open spec fn built_map_ok(
    tags: Seq<BoneTag>,
    anim: ModelAnimation,
    m: Seq<(BoneName, AnimatorData)>,
) -> bool {
    let entries = anim.animators@;
    &&& unique_bone_keys(m)
    &&& forall|k: int| 0 <= k < m.len() ==> good_map_entry(tags, anim, entries.len() as int, #[trigger] m[k])
    &&& forall|i: int|
        0 <= i < entries.len() && #[trigger] targets(entries, i) ==> exists|k: int|
            0 <= k < m.len() && ((#[trigger] m[k]).0.name@, m[k].0.raw_name@) == entry_key(
                tags,
                entries[i].1,
            )
}

/// The playback map is the per-bone map converted to movement tracks,
/// with a two-point placeholder for every hierarchy leaf the map misses.
pub open spec fn movements_from(
    m: Seq<(BoneName, AnimatorData)>,
    group: BlueprintGroup,
    length: u32,
    out: Seq<(BoneName, BlueprintAnimator)>,
) -> bool {
    &&& out.len() == m.len() + placeholder_keys(leaf_keys_group(group), pair_keys(m)).len()
    &&& forall|i: int|
        0 <= i < m.len() ==> (#[trigger] out[i]).0 == m[i].0 && out[i].1.name == m[i].1.name
            && out[i].1.key_frame@ == movements_of(m[i].1.points@)
    &&& pair_keys(out).subrange(m.len() as int, out.len() as int) == placeholder_keys(
        leaf_keys_group(group),
        pair_keys(m),
    )
    &&& forall|j: int|
        m.len() <= j < out.len() ==> (#[trigger] out[j]).1.key_frame@ == placeholder_track(
            length,
        ) && out[j].1.name@ == out[j].0.raw_name@
}

/// Inserts a bone's data, replacing any entry under the same bone name.
fn map_insert(m: &mut Vec<(BoneName, AnimatorData)>, key: BoneName, value: AnimatorData)
    requires
        unique_bone_keys(old(m)@),
    ensures
        unique_bone_keys(final(m)@),
        forall|e: (BoneName, AnimatorData)|
            #![trigger final(m)@.contains(e)]
            #![trigger old(m)@.contains(e)]
            final(m)@.contains(e) <==> (e == ((key, value)) || (old(m)@.contains(e) && !same_bone(
                e.0,
                key,
            ))),
{
    let n = m.len();
    let mut i: usize = 0;
    while i < n
        invariant
            n == m@.len(),
            i <= n,
            unique_bone_keys(m@),
            m == old(m),
            forall|j: int| 0 <= j < i ==> !same_bone(m@[j].0, key),
        decreases n - i,
    {
        let same = {
            let entry = &m[i];
            entry.0 == key
        };
        if same {
            let ghost s0 = m@;
            m.set(i, (key, value));
            proof {
                let s1 = m@;
                assert(s1 == s0.update(i as int, (key, value)));
                assert(same_bone(s0[i as int].0, key));
                assert forall|e: (BoneName, AnimatorData)|
                    s1.contains(e) <==> (e == ((key, value)) || (s0.contains(e) && !same_bone(
                        e.0,
                        key,
                    ))) by {
                    if s1.contains(e) {
                        let k = choose|k: int| 0 <= k < s1.len() && s1[k] == e;
                        if k != i {
                            assert(s0[k] == e);
                            if same_bone(e.0, key) {
                                if k < i {
                                    assert(!same_bone(s0[k].0, s0[i as int].0));
                                } else {
                                    assert(!same_bone(s0[i as int].0, s0[k].0));
                                }
                                assert(false);
                            }
                        }
                    }
                    if e == ((key, value)) {
                        assert(s1[i as int] == e);
                    }
                    if s0.contains(e) && !same_bone(e.0, key) {
                        let k = choose|k: int| 0 <= k < s0.len() && s0[k] == e;
                        assert(k != i);
                        assert(s1[k] == e);
                    }
                }
                assert forall|p: int, q: int|
                    0 <= p < q < s1.len() implies !same_bone(s1[p].0, s1[q].0) by {
                    if p != i && q != i {
                        assert(s1[p] == s0[p] && s1[q] == s0[q]);
                    } else if p == i {
                        assert(s1[q] == s0[q]);
                        assert(!same_bone(s0[i as int].0, s0[q].0));
                        assert(same_bone(s1[p].0, key));
                        assert(same_bone(s0[i as int].0, key));
                    } else {
                        assert(s1[p] == s0[p]);
                        if p < i {
                            assert(!same_bone(s0[p].0, s0[i as int].0));
                        }
                        assert(same_bone(s1[q].0, key));
                        assert(same_bone(s0[i as int].0, key));
                    }
                }
            }
            return ;
        }
        i += 1;
    }
    let ghost s0 = m@;
    m.push((key, value));
    proof {
        let s1 = m@;
        assert forall|e: (BoneName, AnimatorData)|
            s1.contains(e) <==> (e == ((key, value)) || (s0.contains(e) && !same_bone(
                e.0,
                key,
            ))) by {
            if s1.contains(e) {
                let k = choose|k: int| 0 <= k < s1.len() && s1[k] == e;
                if k < s0.len() {
                    assert(s0[k] == e);
                    assert(!same_bone(s0[k].0, key));
                } else {
                    assert(e == ((key, value)));
                }
            }
            if e == ((key, value)) {
                assert(s1[s1.len() - 1] == e);
            }
            if s0.contains(e) && !same_bone(e.0, key) {
                let k = choose|k: int| 0 <= k < s0.len() && s0[k] == e;
                assert(s1[k] == e);
            }
        }
        assert forall|p: int, q: int|
            0 <= p < q < s1.len() implies !same_bone(s1[p].0, s1[q].0) by {
            if q == s1.len() - 1 {
                assert(s1[p] == s0[p]);
                assert(!same_bone(s0[p].0, key));
            } else {
                assert(s1[p] == s0[p] && s1[q] == s0[q]);
            }
        }
    }
}

/// Every sorted view is one of the input's views.
proof fn lemma_insert_kfv_membership(s: Seq<KfView>, x: KfView, k: int)
    requires
        0 <= k < insert_kfv(s, x).len(),
    ensures
        insert_kfv(s, x)[k] == x || s.contains(insert_kfv(s, x)[k]),
    decreases s.len(),
{
    if s.len() == 0 {
    } else if s.last().time <= x.time {
        if k < s.len() {
            assert(s.contains(s[k]));
        }
    } else {
        let d = insert_kfv(s.drop_last(), x);
        if k < d.len() {
            lemma_insert_kfv_membership(s.drop_last(), x, k);
            if s.drop_last().contains(d[k]) {
                let m = choose|m: int| 0 <= m < s.len() - 1 && s.drop_last()[m] == d[k];
                assert(s[m] == d[k]);
                assert(s.contains(d[k]));
            }
        } else {
            assert(insert_kfv(s, x)[k] == s.last());
            assert(s.contains(s.last()));
        }
    }
}

/// Every view of a sorted run is a view of the unsorted run.
proof fn lemma_sort_kfv_membership(s: Seq<KfView>, k: int)
    requires
        0 <= k < sort_kfv(s).len(),
    ensures
        s.contains(sort_kfv(s)[k]),
    decreases s.len(),
{
    if s.len() > 0 {
        let d = sort_kfv(s.drop_last());
        lemma_insert_kfv_membership(d, s.last(), k);
        if sort_kfv(s)[k] == s.last() {
            assert(s.contains(s.last()));
        } else {
            let m = choose|m: int| 0 <= m < d.len() && d[m] == sort_kfv(s)[k];
            lemma_sort_kfv_membership(s.drop_last(), m);
            let q = choose|q: int| 0 <= q < s.len() - 1 && s.drop_last()[q] == d[m];
            assert(s[q] == sort_kfv(s)[k]);
            assert(s.contains(sort_kfv(s)[k]));
        }
    }
}

/// The whole contract of resolving one animation against a registry and a
/// hierarchy group: the playback parameters carry over; the script channel
/// exists exactly for a non-overriding animation or a script entry; the
/// movement map comes from a rightly built per-bone map, completed with
/// leaf placeholders; and the fallback animator is populated exactly when
/// the map came out empty.
pub open spec fn animation_resolved(
    tags: Seq<BoneTag>,
    group: BlueprintGroup,
    anim: ModelAnimation,
    r: BlueprintAnimation,
) -> bool {
    &&& r.name@ == anim.name@
    &&& r.loop_type == anim.looptype
    &&& r.length == anim.length
    &&& r.overriding == anim.overriding
    &&& (r.script is Some) == (!anim.overriding || has_effect(anim.animators@))
    &&& match r.script {
        Some(bs) => bs.name@ == anim.name@ && bs.typee == anim.looptype && bs.length
            == anim.length && bs.scripts@.len() == 2 && bs.scripts@[0].time == 0
            && bs.scripts@[1].time == anim.length,
        None => anim.overriding && !has_effect(anim.animators@),
    }
    &&& exists|m: Seq<(BoneName, AnimatorData)>|
        #![auto]
        built_map_ok(tags, anim, m) && movements_from(m, group, anim.length, r.animator@)
            && r.empty_animator@ == (if m.len() == 0 {
            placeholder_track(anim.length)
        } else {
            Seq::<AnimationMovement>::empty()
        })
}

/// Every raw sample of every keyframe of every animator leaves room for
/// the fixed-point channel conversions.
pub open spec fn animation_samples_ok(anim: ModelAnimation) -> bool {
    forall|i: int, f: int, d: int|
        0 <= i < anim.animators@.len() && 0 <= f < anim.animators@[i].1.keyframes@.len() && 0 <= d
            < anim.animators@[i].1.keyframes@[f].data_points@.len() ==> sample_in_range(
            #[trigger] anim.animators@[i].1.keyframes@[f].data_points@[d],
        )
}

/// Every animation of a document satisfies the sample-range bound.
pub open spec fn animation_samples_ok_data(data: crate::model::ModelData) -> bool {
    forall|i: int|
        0 <= i < data.animations@.len() ==> animation_samples_ok(#[trigger] data.animations@[i])
}

/// A fully resolved animation: its playback parameters, the per-bone
/// movement map, its optional script channel, and the fallback two-point
/// track used when no bone produced data.
pub struct BlueprintAnimation {
    pub name: String,
    pub loop_type: AnimationType,
    pub length: u32,
    pub overriding: bool,
    pub animator: Vec<(BoneName, BlueprintAnimator)>,
    pub script: Option<BlueprintScript>,
    pub empty_animator: Vec<AnimationMovement>,
}

impl BlueprintAnimation {
    /// Resolves one raw animation definition against the registry and the
    /// hierarchy: every named motion animator's sorted keyframes are
    /// accumulated, merged and keyed by its parsed bone name (the reserved
    /// id `"effect"` defining the script channel instead), hierarchy
    /// leaves without data receive placeholders, and an empty authored
    /// bone map populates the fallback animator.
    #[verifier::rlimit(60)]
    pub fn from(
        registry: &BoneTagRegistry,
        children: &BlueprintGroup,
        animation: &ModelAnimation,
    ) -> (r: BlueprintAnimation)
        requires
            registry.wf(),
            animation_samples_ok(*animation),
        ensures
            animation_resolved(registry.tags@, *children, *animation, r),
    {
        let ghost tags = registry.tags@;
        let ghost entries = animation.animators@;
        let mut map: Vec<(BoneName, AnimatorData)> = Vec::new();
        let mut script: Option<BlueprintScript> = if animation.overriding {
            None
        } else {
            Some(BlueprintScript::from(animation))
        };
        let n = animation.animators.len();
        let mut i: usize = 0;
        proof {
            assert(entries.subrange(0, 0) =~= Seq::<(String, ModelAnimator)>::empty());
        }
        while i < n
            invariant
                registry.wf(),
                tags == registry.tags@,
                entries == animation.animators@,
                animation_samples_ok(*animation),
                n == entries.len(),
                i <= n,
                unique_bone_keys(map@),
                forall|e: (BoneName, AnimatorData)|
                    #[trigger] map@.contains(e) ==> good_map_entry(tags, *animation, i as int, e),
                forall|j: int|
                    0 <= j < i && #[trigger] targets(entries, j) ==> exists|k: int|
                        0 <= k < map@.len() && ((#[trigger] map@[k]).0.name@, map@[k].0.raw_name@)
                            == entry_key(tags, entries[j].1),
                (script is Some) == (!animation.overriding || has_effect(
                    entries.subrange(0, i as int),
                )),
                match script {
                    Some(bs) => bs.name@ == animation.name@ && bs.typee == animation.looptype
                        && bs.length == animation.length && bs.scripts@.len() == 2
                        && bs.scripts@[0].time == 0 && bs.scripts@[1].time == animation.length,
                    None => animation.overriding && !has_effect(entries.subrange(0, i as int)),
                },
            decreases n - i,
        {
            let ghost pre = entries.subrange(0, i as int);
            let ghost pre1 = entries.subrange(0, i as int + 1);
            proof {
                assert(pre1.drop_last() =~= pre);
                assert(pre1.last() == entries[i as int]);
                assert(has_effect(pre1) == (has_effect(pre) || (entries[i as int].0@
                    == "effect"@ && entries[i as int].1.name is Some))) by {
                    if has_effect(pre1) {
                        let q = choose|q: int|
                            0 <= q < pre1.len() && pre1[q].0@ == "effect"@
                                && pre1[q].1.name is Some;
                        if q < pre.len() {
                            assert(pre[q] == pre1[q]);
                            assert(has_effect(pre));
                        }
                    }
                    if has_effect(pre) {
                        let q = choose|q: int|
                            0 <= q < pre.len() && pre[q].0@ == "effect"@ && pre[q].1.name is Some;
                        assert(pre1[q] == pre[q]);
                        assert(has_effect(pre1));
                    }
                    if entries[i as int].0@ == "effect"@ && entries[i as int].1.name is Some {
                        assert(pre1[i as int].0@ == "effect"@ && pre1[i as int].1.name is Some);
                        assert(has_effect(pre1));
                    }
                }
            }
            let entry = &animation.animators[i];
            match &entry.1.name {
                None => {
                    proof {
                        assert(!targets(entries, i as int));
                        assert forall|e: (BoneName, AnimatorData)|
                            #[trigger] map@.contains(e) implies good_map_entry(
                            tags,
                            *animation,
                            i as int + 1,
                            e,
                        ) by {
                            lemma_good_entry_extend(tags, *animation, i as int, e);
                        }
                    }
                },
                Some(name) => {
                    let clones = clone_keyframes(&entry.1.keyframes);
                    let ghost cl = clones@;
                    let kfs = sort_keyframes(clones);
                    let ghost views = kf_views(kfs@);
                    proof {
                        crate::model::lemma_sort_views_equal(
                            cl,
                            entries[i as int].1.keyframes@,
                        );
                        crate::model::lemma_sort_views(entries[i as int].1.keyframes@);
                        assert(views == sort_kfv(kf_views(entries[i as int].1.keyframes@)));
                    }
                    let mut builder = BlueprintAnimator::builder(animation.length);
                    let kn = kfs.len();
                    let mut j: usize = 0;
                    proof {
                        assert(views.subrange(0, 0) =~= Seq::<KfView>::empty());
                    }
                    while j < kn
                        invariant
                            kn == kfs@.len(),
                            j <= kn,
                            kf_sorted(kfs@),
                            views == kf_views(kfs@),
                            views == sort_kfv(kf_views(entries[i as int].1.keyframes@)),
                            animation_samples_ok(*animation),
                            entries == animation.animators@,
                            0 <= i < entries.len(),
                            builder.length == animation.length,
                            builder.wf(),
                            j > 0 ==> builder.accepts(kfs@[j as int - 1].time),
                            j == 0 ==> builder.transform@.len() == 0 && builder.rotation@.len()
                                == 0 && builder.scale@.len() == 0,
                            builder.transform@ == channel_points_upto(
                                views.subrange(0, j as int),
                                animation.length,
                                KeyFrameChannel::Position,
                            ),
                            builder.rotation@ == channel_points_upto(
                                views.subrange(0, j as int),
                                animation.length,
                                KeyFrameChannel::Rotation,
                            ),
                            builder.scale@ == channel_points_upto(
                                views.subrange(0, j as int),
                                animation.length,
                                KeyFrameChannel::Scale,
                            ),
                        decreases kn - j,
                    {
                        let ghost vpre = views.subrange(0, j as int);
                        let ghost vpre1 = views.subrange(0, j as int + 1);
                        proof {
                            assert(vpre1.drop_last() =~= vpre);
                            assert(vpre1.last() == views[j as int]);
                            assert(views[j as int] == kf_view(kfs@[j as int]));
                            assert forall|d: int|
                                0 <= d < kfs@[j as int].data_points@.len() implies sample_in_range(
                                #[trigger] kfs@[j as int].data_points@[d],
                            ) by {
                                lemma_sort_kfv_membership(
                                    kf_views(entries[i as int].1.keyframes@),
                                    j as int,
                                );
                                let src = choose|src: int|
                                    0 <= src < kf_views(
                                        entries[i as int].1.keyframes@,
                                    ).len() && kf_views(entries[i as int].1.keyframes@)[src]
                                        == views[j as int];
                                assert(entries[i as int].1.keyframes@[src].data_points@[d]
                                    == kfs@[j as int].data_points@[d]);
                            }
                        }
                        let kf = &kfs[j];
                        builder.add_frame(kf);
                        proof {
                            if kf.time > animation.length {
                                assert(channel_points_upto(
                                    vpre1,
                                    animation.length,
                                    KeyFrameChannel::Position,
                                ) =~= builder.transform@);
                                assert(channel_points_upto(
                                    vpre1,
                                    animation.length,
                                    KeyFrameChannel::Rotation,
                                ) =~= builder.rotation@);
                                assert(channel_points_upto(
                                    vpre1,
                                    animation.length,
                                    KeyFrameChannel::Scale,
                                ) =~= builder.scale@);
                            } else {
                                assert(channel_points_upto(
                                    vpre1,
                                    animation.length,
                                    KeyFrameChannel::Position,
                                ) =~= builder.transform@);
                                assert(channel_points_upto(
                                    vpre1,
                                    animation.length,
                                    KeyFrameChannel::Rotation,
                                ) =~= builder.rotation@);
                                assert(channel_points_upto(
                                    vpre1,
                                    animation.length,
                                    KeyFrameChannel::Scale,
                                ) =~= builder.scale@);
                            }
                        }
                        j += 1;
                    }
                    proof {
                        assert(views.subrange(0, views.len() as int) =~= views);
                    }
                    let data = builder.build(name.clone());
                    let is_effect = str_eq_chars(entry.0.as_str(), "effect");
                    if is_effect {
                        script = Some(BlueprintScript::from(animation));
                        proof {
                            assert(!targets(entries, i as int));
                            assert(has_effect(pre1));
                            assert forall|e: (BoneName, AnimatorData)|
                                #[trigger] map@.contains(e) implies good_map_entry(
                                tags,
                                *animation,
                                i as int + 1,
                                e,
                            ) by {
                                lemma_good_entry_extend(tags, *animation, i as int, e);
                            }
                        }
                    } else {
                        let key = registry.parse(name.as_str());
                        proof {
                            lemma_parsed_key(tags, name@, key);
                            assert(targets(entries, i as int));
                            assert((key.name@, key.raw_name@) == entry_key(
                                tags,
                                entries[i as int].1,
                            ));
                        }
                        let ghost map0 = map@;
                        map_insert(&mut map, key, data);
                        proof {
                            let newe = ((key, data));
                            assert(map@.contains(newe));
                            assert(good_map_entry(tags, *animation, i as int + 1, newe)) by {
                                assert(targets(entries, i as int));
                                assert(is_parsed(tags, entries[i as int].1.name->0@, newe.0));
                                assert(newe.1.points@ == data.points@);
                            }
                            assert forall|e: (BoneName, AnimatorData)|
                                #[trigger] map@.contains(e) implies good_map_entry(
                                tags,
                                *animation,
                                i as int + 1,
                                e,
                            ) by {
                                if e == newe {
                                } else {
                                    assert(map0.contains(e) && !same_bone(e.0, key));
                                    lemma_good_entry_extend_distinct(
                                        tags,
                                        *animation,
                                        i as int,
                                        e,
                                        entry_key(tags, entries[i as int].1),
                                    );
                                }
                            }
                            assert forall|j2: int|
                                0 <= j2 < i + 1 && #[trigger] targets(entries, j2)
                                implies exists|k: int|
                                0 <= k < map@.len() && ((#[trigger] map@[k]).0.name@, map@[k].0.raw_name@)
                                    == entry_key(tags, entries[j2].1) by {
                                if j2 == i {
                                    let k = choose|k: int| 0 <= k < map@.len() && map@[k] == newe;
                                    assert((map@[k].0.name@, map@[k].0.raw_name@) == entry_key(
                                        tags,
                                        entries[j2].1,
                                    ));
                                } else {
                                    let k0 = choose|k0: int|
                                        0 <= k0 < map0.len() && ((#[trigger] map0[k0]).0.name@,
                                        map0[k0].0.raw_name@) == entry_key(tags, entries[j2].1);
                                    let eold = map0[k0];
                                    assert(map0.contains(eold));
                                    if same_bone(eold.0, key) {
                                        let k = choose|k: int|
                                            0 <= k < map@.len() && map@[k] == newe;
                                        assert((map@[k].0.name@, map@[k].0.raw_name@)
                                            == entry_key(tags, entries[j2].1));
                                    } else {
                                        assert(map@.contains(eold));
                                        let k = choose|k: int|
                                            0 <= k < map@.len() && map@[k] == eold;
                                        assert((map@[k].0.name@, map@[k].0.raw_name@)
                                            == entry_key(tags, entries[j2].1));
                                    }
                                }
                            }
                        }
                    }
                },
            }
            i += 1;
        }
        proof {
            assert(entries.subrange(0, n as int) =~= entries);
            assert forall|k: int|
                0 <= k < map@.len() implies good_map_entry(
                tags,
                *animation,
                entries.len() as int,
                #[trigger] map@[k],
            ) by {
                assert(map@.contains(map@[k]));
            }
            assert(built_map_ok(tags, *animation, map@));
        }
        let ghost final_map = map@;
        let map_is_empty = map.len() == 0;
        let animators = AnimationGenerator::create_movements(children, map, animation.length);
        let empty_animator: Vec<AnimationMovement> = if map_is_empty {
            let mut t: Vec<AnimationMovement> = Vec::new();
            t.push(AnimationMovement::new(0, Vec3::new(0, 0, 0), Vec3::new(0, 0, 0), Vec3::new(0, 0, 0)));
            t.push(AnimationMovement::from_lenght(animation.length));
            proof {
                assert(t@ =~= placeholder_track(animation.length));
            }
            t
        } else {
            Vec::new()
        };
        let r = BlueprintAnimation {
            name: animation.name.clone(),
            loop_type: animation.looptype,
            length: animation.length,
            overriding: animation.overriding,
            animator: animators,
            script,
            empty_animator,
        };
        proof {
            assert(built_map_ok(tags, *animation, final_map) && movements_from(
                final_map,
                *children,
                animation.length,
                r.animator@,
            ));
        }
        r
    }
}

/// A good map entry stays good when the scan passes a non-motion entry or
/// an entry under a different key.
proof fn lemma_good_entry_extend(
    tags: Seq<BoneTag>,
    anim: ModelAnimation,
    upto: int,
    e: (BoneName, AnimatorData),
)
    requires
        0 <= upto < anim.animators@.len(),
        good_map_entry(tags, anim, upto, e),
        !targets(anim.animators@, upto),
    ensures
        good_map_entry(tags, anim, upto + 1, e),
{
    let entries = anim.animators@;
    let i = choose|i: int|
        {
            let kfs = sort_kfv(kf_views(entries[i].1.keyframes@));
            &&& 0 <= i < upto
            &&& #[trigger] targets(entries, i)
            &&& is_parsed(tags, entries[i].1.name->0@, e.0)
            &&& (forall|j: int|
                i < j < upto && #[trigger] targets(entries, j) ==> entry_key(tags, entries[j].1)
                    != entry_key(tags, entries[i].1))
            &&& e.1.name@ == entries[i].1.name->0@
            &&& is_merged(
                anim.length,
                dedup_times(channel_points_upto(kfs, anim.length, KeyFrameChannel::Position)),
                dedup_times(channel_points_upto(kfs, anim.length, KeyFrameChannel::Rotation)),
                dedup_times(channel_points_upto(kfs, anim.length, KeyFrameChannel::Scale)),
                e.1.points@,
            )
        };
    assert forall|j: int|
        i < j < upto + 1 && #[trigger] targets(entries, j) implies entry_key(tags, entries[j].1)
        != entry_key(tags, entries[i].1) by {
        if j == upto {
            assert(false);
        }
    }
}

/// A good map entry stays good when the scan passes a motion entry under a
/// different key.
proof fn lemma_good_entry_extend_distinct(
    tags: Seq<BoneTag>,
    anim: ModelAnimation,
    upto: int,
    e: (BoneName, AnimatorData),
    newkey: (Seq<char>, Seq<char>),
)
    requires
        0 <= upto < anim.animators@.len(),
        good_map_entry(tags, anim, upto, e),
        targets(anim.animators@, upto),
        entry_key(tags, anim.animators@[upto].1) == newkey,
        (e.0.name@, e.0.raw_name@) != newkey,
    ensures
        good_map_entry(tags, anim, upto + 1, e),
{
    let entries = anim.animators@;
    let i = choose|i: int|
        {
            let kfs = sort_kfv(kf_views(entries[i].1.keyframes@));
            &&& 0 <= i < upto
            &&& #[trigger] targets(entries, i)
            &&& is_parsed(tags, entries[i].1.name->0@, e.0)
            &&& (forall|j: int|
                i < j < upto && #[trigger] targets(entries, j) ==> entry_key(tags, entries[j].1)
                    != entry_key(tags, entries[i].1))
            &&& e.1.name@ == entries[i].1.name->0@
            &&& is_merged(
                anim.length,
                dedup_times(channel_points_upto(kfs, anim.length, KeyFrameChannel::Position)),
                dedup_times(channel_points_upto(kfs, anim.length, KeyFrameChannel::Rotation)),
                dedup_times(channel_points_upto(kfs, anim.length, KeyFrameChannel::Scale)),
                e.1.points@,
            )
        };
    crate::bone::lemma_parsed_key_unique(tags, entries[i].1.name->0@, e.0);
    assert forall|j: int|
        i < j < upto + 1 && #[trigger] targets(entries, j) implies entry_key(tags, entries[j].1)
        != entry_key(tags, entries[i].1) by {
        if j == upto {
            assert(entry_key(tags, entries[i].1) == (e.0.name@, e.0.raw_name@));
        }
    }
}

/// A timed playback item: a script firing or a movement sample.
pub enum Timed {
    Script(TimeScript),
    KeyFrame(AnimationMovement),
}

impl From<AnimationMovement> for Timed {
    fn from(value: AnimationMovement) -> (r: Self) {
        Timed::KeyFrame(value)
    }
}

impl vstd::std_specs::convert::FromSpecImpl<AnimationMovement> for Timed {
    open spec fn obeys_from_spec() -> bool {
        true
    }

    open spec fn from_spec(value: AnimationMovement) -> Self {
        Timed::KeyFrame(value)
    }
}

impl From<TimeScript> for Timed {
    fn from(value: TimeScript) -> (r: Self) {
        Timed::Script(value)
    }
}

impl vstd::std_specs::convert::FromSpecImpl<TimeScript> for Timed {
    open spec fn obeys_from_spec() -> bool {
        true
    }

    open spec fn from_spec(value: TimeScript) -> Self {
        Timed::Script(value)
    }
}

/// Law: deduplication keeps a point whose time no earlier point shares —
/// when samples collide on a time, the first-seen value is the one kept.
pub proof fn lemma_dedup_keeps_first(s: Seq<VectorPoint>, i: int)
    requires
        0 <= i < s.len(),
        forall|m: int| 0 <= m < i ==> s[m].time != s[i].time,
    ensures
        dedup_times(s).contains(s[i]),
    decreases s.len(),
{
    if i == s.len() - 1 {
        if exists|m: int| 0 <= m < s.len() - 1 && s[m].time == s.last().time {
            let m = choose|m: int| 0 <= m < s.len() - 1 && s[m].time == s.last().time;
            assert(false);
        }
        let d = dedup_times(s);
        assert(d[d.len() - 1] == s[i]);
    } else {
        assert(forall|m: int| 0 <= m < i ==> s.drop_last()[m].time != s.drop_last()[i].time);
        lemma_dedup_keeps_first(s.drop_last(), i);
        let d0 = dedup_times(s.drop_last());
        let k = choose|k: int| 0 <= k < d0.len() && d0[k] == s.drop_last()[i];
        if exists|m: int| 0 <= m < s.len() - 1 && s[m].time == s.last().time {
            assert(dedup_times(s)[k] == s[i]);
        } else {
            assert(dedup_times(s)[k] == s[i]);
        }
        assert(dedup_times(s).contains(s[i]));
    }
}

} // verus!
