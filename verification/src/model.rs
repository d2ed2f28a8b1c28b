use vstd::prelude::*;
use crate::animation::AnimationType;
use crate::interpolate::default_interpolation;
use crate::interpolate::Interpolation;
use crate::math::Vec3;

verus! {

/// The document's pixel resolution declaration.
#[derive(Clone, Copy, Debug, PartialEq, Eq, Structural)]
pub struct ModelResolution {
    pub width: u32,
    pub height: u32,
}

/// A face's UV rectangle: offsets and extents in texture space.
#[derive(Clone, Copy, Debug, PartialEq, Eq, Structural)]
pub struct UvQuad {
    pub dx: i64,
    pub dz: i64,
    pub tx: i64,
    pub ty: i64,
}

/// One face's UV mapping: the rectangle, a rotation, and the texture
/// reference it points at.
#[derive(Clone, Debug)]
pub struct ModelUV {
    pub uv: UvQuad,
    pub rotation: i64,
    pub texture: String,
}

/// The six face mappings of a cuboid element.
#[derive(Clone, Debug)]
pub struct ModelFace {
    pub up: ModelUV,
    pub down: ModelUV,
    pub north: ModelUV,
    pub south: ModelUV,
    pub west: ModelUV,
    pub east: ModelUV,
}

/// A cuboid element of the model, as authored.
#[derive(Clone, Debug)]
pub struct ModelElement {
    pub name: String,
    pub uuid: String,
    pub from: Vec3,
    pub to: Vec3,
    pub inflate: i64,
    pub rotation: Vec3,
    pub origin: Vec3,
    pub faces: ModelFace,
    pub visibility: bool,
}

/// A texture entry: its name, its encoded data-URL source, and its
/// declared pixel and UV dimensions.
#[derive(Clone, Debug)]
pub struct ModelTexture {
    pub name: String,
    pub source: String,
    pub width: u32,
    pub height: u32,
    pub uv_width: u32,
    pub uv_height: u32,
}

/// The channel a keyframe animates. Only position, rotation and scale
/// drive bone motion; the rest are reserved.
#[derive(Clone, Copy, Debug, PartialEq, Eq, Structural)]
pub enum KeyFrameChannel {
    Position,
    Rotation,
    Scale,
    Timeline,
    Sound,
    Particle,
}

/// One raw sample triple of a keyframe, plus its optional script text.
#[derive(Clone, Debug)]
pub struct DataPoint {
    pub x: i64,
    pub y: i64,
    pub z: i64,
    pub script: String,
}

impl DataPoint {
    /// The sample as a plain 3-vector.
    pub fn to_vector(&self) -> (v: Vec3)
        ensures
            v == (Vec3 { x: self.x, y: self.y, z: self.z }),
    {
        Vec3 { x: self.x, y: self.y, z: self.z }
    }
}

/// An authored keyframe: its channel, sample triples, unused bezier
/// control values, an optional interpolation name, and its time.
#[derive(Clone, Debug)]
pub struct ModelKeyFrame {
    pub channel: KeyFrameChannel,
    pub data_points: Vec<DataPoint>,
    pub bezier_left_time: Vec3,
    pub bezier_left_value: Vec3,
    pub bezier_right_time: Vec3,
    pub bezier_right_value: Vec3,
    pub interpolation: Option<String>,
    pub uuid: String,
    pub time: u32,
}

impl ModelKeyFrame {
    /// The strategy the keyframe's interpolation name selects. A missing
    /// name takes the default; an unresolved name falls back to linear as
    /// well, since no named curve beyond linear is supported.
    pub fn find_interpolation(&self) -> (r: Interpolation)
        ensures
            r == Interpolation::Linear,
    {
        default_interpolation()
    }
}

/// One animator definition: the bone it targets, if any, and its
/// keyframes.
#[derive(Clone, Debug)]
pub struct ModelAnimator {
    pub name: Option<String>,
    pub keyframes: Vec<ModelKeyFrame>,
}

/// A raw animation definition: loop type, overriding flag, length, and
/// its animator entries keyed by an internal id.
#[derive(Clone, Debug)]
pub struct ModelAnimation {
    pub name: String,
    pub looptype: AnimationType,
    pub overriding: bool,
    pub uuid: String,
    pub length: u32,
    pub animators: Vec<(String, ModelAnimator)>,
}

/// A group node of the outliner forest.
pub struct ModelGroupe {
    pub name: String,
    pub origin: Vec3,
    pub rotation: Vec3,
    pub uuid: String,
    pub children: Vec<ModelChildren>,
}

/// A leaf element reference in the outliner forest.
#[derive(Clone, Debug)]
pub struct ModelUUID {
    pub uuid: String,
}

/// One outliner child: a leaf element reference or a nested group.
pub enum ModelChildren {
    Element(ModelUUID),
    Group(ModelGroupe),
}

/// The whole decoded document: resolution, elements, outliner forest,
/// textures and animations.
pub struct ModelData {
    pub name: String,
    pub resolution: ModelResolution,
    pub elements: Vec<ModelElement>,
    pub outliner: Vec<ModelChildren>,
    pub textures: Vec<ModelTexture>,
    pub animations: Vec<ModelAnimation>,
}

/// Keyframes in non-decreasing time order.
pub open spec fn kf_sorted(s: Seq<ModelKeyFrame>) -> bool {
    forall|i: int, j: int| 0 <= i < j < s.len() ==> s[i].time <= s[j].time
}

/// Stable insertion of a keyframe into a sorted run: the keyframe lands
/// after every earlier keyframe of the same or lesser time.
pub open spec fn insert_kf(s: Seq<ModelKeyFrame>, x: ModelKeyFrame) -> Seq<ModelKeyFrame>
    decreases s.len(),
{
    if s.len() == 0 {
        seq![x]
    } else if s.last().time <= x.time {
        s.push(x)
    } else {
        insert_kf(s.drop_last(), x).push(s.last())
    }
}

/// Stable sort by time: each keyframe inserted behind its equals, in
/// authored order.
pub open spec fn sort_kf(s: Seq<ModelKeyFrame>) -> Seq<ModelKeyFrame>
    decreases s.len(),
{
    if s.len() == 0 {
        Seq::empty()
    } else {
        insert_kf(sort_kf(s.drop_last()), s.last())
    }
}

/// Where the insertion point splits a sorted run, the stable insertion is
/// the run with the keyframe spliced in at that point.
proof fn lemma_insert_kf_at(s: Seq<ModelKeyFrame>, x: ModelKeyFrame, j: int)
    requires
        0 <= j <= s.len(),
        forall|m: int| 0 <= m < j ==> s[m].time <= x.time,
        forall|m: int| j <= m < s.len() ==> s[m].time > x.time,
    ensures
        insert_kf(s, x) == s.subrange(0, j).push(x) + s.subrange(j, s.len() as int),
    decreases s.len(),
{
    if s.len() == 0 {
        assert(insert_kf(s, x) =~= s.subrange(0, j).push(x) + s.subrange(j, s.len() as int));
    } else if s.last().time <= x.time {
        assert(j == s.len());
        assert(s.subrange(0, j) =~= s);
        assert(s.subrange(j, s.len() as int) =~= Seq::empty());
        assert(insert_kf(s, x) =~= s.subrange(0, j).push(x) + s.subrange(j, s.len() as int));
    } else {
        assert(j < s.len());
        let d = s.drop_last();
        assert(forall|m: int| 0 <= m < j ==> d[m].time <= x.time);
        assert(forall|m: int| j <= m < d.len() ==> d[m].time > x.time);
        lemma_insert_kf_at(d, x, j);
        assert(d.subrange(0, j) =~= s.subrange(0, j));
        assert(insert_kf(s, x) == insert_kf(d, x).push(s.last()));
        assert(insert_kf(d, x) == d.subrange(0, j).push(x) + d.subrange(j, d.len() as int));
        assert((d.subrange(0, j).push(x) + d.subrange(j, d.len() as int)).push(s.last()) =~= s
            .subrange(0, j).push(x) + s.subrange(j, s.len() as int));
    }
}

/// Sorts an animator's keyframes by time, stably: keyframes sharing a
/// time keep their authored order.
pub fn sort_keyframes(v: Vec<ModelKeyFrame>) -> (r: Vec<ModelKeyFrame>)
    ensures
        r@ == sort_kf(v@),
        kf_sorted(r@),
        r@.len() == v@.len(),
{
    let ghost vs = v@;
    let mut v = v;
    let mut out: Vec<ModelKeyFrame> = Vec::new();
    let mut k: usize = 0;
    let n0 = v.len();
    proof {
        assert(vs.len() == n0);
        assert(vs.subrange(0, 0) =~= Seq::empty());
        assert(v@ =~= vs.subrange(0, vs.len() as int));
    }
    while v.len() > 0
        invariant
            vs.len() <= usize::MAX,
            k <= vs.len(),
            k + v@.len() == vs.len(),
            v@ == vs.subrange(k as int, vs.len() as int),
            out@ == sort_kf(vs.subrange(0, k as int)),
            kf_sorted(out@),
            out@.len() == k,
        decreases v@.len(),
    {
        let ghost vbefore = v@;
        let x = v.remove(0);
        proof {
            assert(x == vs[k as int]);
            assert(v@ =~= vs.subrange(k as int + 1, vs.len() as int));
        }
        let ghost out0 = out@;
        let mut j: usize = out.len();
        while j > 0 && out[j - 1].time > x.time
            invariant
                k < vs.len(),
                j <= out@.len(),
                out@ == out0,
                kf_sorted(out@),
                x == vs[k as int],
                forall|m: int| j <= m < out@.len() ==> out@[m].time > x.time,
            decreases j,
        {
            j -= 1;
        }
        out.insert(j, x);
        proof {
            assert(forall|m: int| 0 <= m < j ==> out0[m].time <= x.time);
            lemma_insert_kf_at(out0, x, j as int);
            assert(out@ =~= out0.subrange(0, j as int).push(x) + out0.subrange(
                j as int,
                out0.len() as int,
            ));
            assert(out@ == insert_kf(out0, x));
            assert(vs.subrange(0, k as int + 1).drop_last() =~= vs.subrange(0, k as int));
            assert(vs.subrange(0, k as int + 1).last() == x);
            assert(out@ == sort_kf(vs.subrange(0, k as int + 1)));
            assert forall|p: int, q: int|
                0 <= p < q < out@.len() implies out@[p].time <= out@[q].time by {
                if q < j {
                    assert(out@[p] == out0[p] && out@[q] == out0[q]);
                } else if p > j {
                    assert(out@[p] == out0[p - 1] && out@[q] == out0[q - 1]);
                } else if q == j {
                    assert(out@[p] == out0[p] && out@[q] == x);
                } else if p == j {
                    assert(out@[p] == x && out@[q] == out0[q - 1]);
                } else {
                    assert(out@[p] == out0[p] && out@[q] == out0[q - 1]);
                }
            }
        }
        k += 1;
    }
    proof {
        assert(vs.subrange(0, vs.len() as int) =~= vs);
    }
    out
}

/// The part of a keyframe the channel builder reads: its channel, its raw
/// samples, and its time.
pub ghost struct KfView {
    pub channel: KeyFrameChannel,
    pub samples: Seq<DataPoint>,
    pub time: u32,
}

/// A keyframe, as the channel builder sees it.
pub open spec fn kf_view(kf: ModelKeyFrame) -> KfView {
    KfView { channel: kf.channel, samples: kf.data_points@, time: kf.time }
}

/// The builder views of a run of keyframes.
pub open spec fn kf_views(s: Seq<ModelKeyFrame>) -> Seq<KfView> {
    Seq::new(s.len(), |i: int| kf_view(s[i]))
}

/// Stable insertion, over builder views.
pub open spec fn insert_kfv(s: Seq<KfView>, x: KfView) -> Seq<KfView>
    decreases s.len(),
{
    if s.len() == 0 {
        seq![x]
    } else if s.last().time <= x.time {
        s.push(x)
    } else {
        insert_kfv(s.drop_last(), x).push(s.last())
    }
}

/// Stable sort by time, over builder views.
pub open spec fn sort_kfv(s: Seq<KfView>) -> Seq<KfView>
    decreases s.len(),
{
    if s.len() == 0 {
        Seq::empty()
    } else {
        insert_kfv(sort_kfv(s.drop_last()), s.last())
    }
}

/// Inserting commutes with taking builder views.
proof fn lemma_insert_views(s: Seq<ModelKeyFrame>, x: ModelKeyFrame)
    ensures
        kf_views(insert_kf(s, x)) == insert_kfv(kf_views(s), kf_view(x)),
    decreases s.len(),
{
    if s.len() == 0 {
        assert(kf_views(insert_kf(s, x)) =~= insert_kfv(kf_views(s), kf_view(x)));
    } else {
        assert(kf_views(s).last() == kf_view(s.last()));
        if s.last().time <= x.time {
            assert(kf_views(s.push(x)) =~= kf_views(s).push(kf_view(x)));
        } else {
            lemma_insert_views(s.drop_last(), x);
            assert(kf_views(s.drop_last()) =~= kf_views(s).drop_last());
            assert(kf_views(insert_kf(s.drop_last(), x).push(s.last())) =~= kf_views(
                insert_kf(s.drop_last(), x),
            ).push(kf_view(s.last())));
            assert(kf_views(insert_kf(s, x)) =~= insert_kfv(kf_views(s), kf_view(x)));
        }
    }
}

/// Sorting commutes with taking builder views.
pub proof fn lemma_sort_views(s: Seq<ModelKeyFrame>)
    ensures
        kf_views(sort_kf(s)) == sort_kfv(kf_views(s)),
    decreases s.len(),
{
    if s.len() == 0 {
        assert(kf_views(sort_kf(s)) =~= sort_kfv(kf_views(s)));
    } else {
        lemma_sort_views(s.drop_last());
        lemma_insert_views(sort_kf(s.drop_last()), s.last());
        assert(kf_views(s.drop_last()) =~= kf_views(s).drop_last());
        assert(kf_views(s).last() == kf_view(s.last()));
    }
}

/// Equal builder views sort to equal builder views.
pub proof fn lemma_sort_views_equal(a: Seq<ModelKeyFrame>, b: Seq<ModelKeyFrame>)
    requires
        kf_views(a) == kf_views(b),
    ensures
        kf_views(sort_kf(a)) == kf_views(sort_kf(b)),
{
    lemma_sort_views(a);
    lemma_sort_views(b);
}

/// The default scale of a model without elements: sixteen model units, in
/// fixed-point ticks.
pub const DEFAULT_SCALE: u64 = 1048576;

/// The floor square root of `n`.
pub fn isqrt(n: u128) -> (r: u128)
    requires
        n < 0xffff_ffff_ffff_ffff * 0xffff_ffff_ffff_ffff,
    ensures
        r * r <= n < (r + 1) * (r + 1),
{
    if n == 0 {
        return 0;
    }
    let mut lo: u128 = 0;
    let mut hi: u128 = 0xffff_ffff_ffff_ffff;
    proof {
        assert(0xffff_ffff_ffff_ffffu128 * 0xffff_ffff_ffff_ffffu128 > n);
    }
    while lo + 1 < hi
        invariant
            lo < hi <= 0xffff_ffff_ffff_ffff,
            lo * lo <= n,
            n < hi * hi,
        decreases hi - lo,
    {
        let mid = lo + (hi - lo) / 2;
        proof {
            assert(lo < mid < hi);
        }
        if mid <= n / mid {
            proof {
                let q = (n as int) / (mid as int);
                vstd::arithmetic::div_mod::lemma_fundamental_div_mod(n as int, mid as int);
                vstd::arithmetic::div_mod::lemma_mod_bound(n as int, mid as int);
                assert(mid * mid <= n) by (nonlinear_arith)
                    requires
                        mid >= 1,
                        mid <= q,
                        n == mid as int * q + (n as int % (mid as int)),
                        0 <= (n as int % (mid as int));
            }
            lo = mid;
        } else {
            proof {
                let q = (n as int) / (mid as int);
                vstd::arithmetic::div_mod::lemma_fundamental_div_mod(n as int, mid as int);
                vstd::arithmetic::div_mod::lemma_mod_bound(n as int, mid as int);
                assert(n < mid * mid) by (nonlinear_arith)
                    requires
                        mid >= 1,
                        q < mid,
                        0 <= q,
                        n == mid as int * q + (n as int % (mid as int)),
                        (n as int % (mid as int)) < mid;
            }
            hi = mid;
        }
    }
    lo
}

/// The squared length of an element's diagonal, from corner to corner.
pub open spec fn diag_sq(e: ModelElement) -> int {
    (e.to.x - e.from.x) * (e.to.x - e.from.x) + (e.to.y - e.from.y) * (e.to.y - e.from.y) + (
    e.to.z - e.from.z) * (e.to.z - e.from.z)
}

/// The element's extents leave room for squared-length arithmetic.
pub open spec fn extent_in_range(e: ModelElement) -> bool {
    &&& -0x4000_0000_0000_0000 <= e.to.x - e.from.x <= 0x4000_0000_0000_0000
    &&& -0x4000_0000_0000_0000 <= e.to.y - e.from.y <= 0x4000_0000_0000_0000
    &&& -0x4000_0000_0000_0000 <= e.to.z - e.from.z <= 0x4000_0000_0000_0000
}

impl ModelElement {
    /// The length of the element's diagonal: the floor square root of the
    /// squared corner-to-corner distance.
    pub fn max(&self) -> (r: u64)
        requires
            extent_in_range(*self),
        ensures
            r * r <= diag_sq(*self) < (r + 1) * (r + 1),
    {
        let dx: i128 = self.to.x as i128 - self.from.x as i128;
        let dy: i128 = self.to.y as i128 - self.from.y as i128;
        let dz: i128 = self.to.z as i128 - self.from.z as i128;
        proof {
            assert(dx * dx <= 0x4000_0000_0000_0000 * 0x4000_0000_0000_0000) by (nonlinear_arith)
                requires
                    -0x4000_0000_0000_0000 <= dx <= 0x4000_0000_0000_0000;
            assert(dy * dy <= 0x4000_0000_0000_0000 * 0x4000_0000_0000_0000) by (nonlinear_arith)
                requires
                    -0x4000_0000_0000_0000 <= dy <= 0x4000_0000_0000_0000;
            assert(dz * dz <= 0x4000_0000_0000_0000 * 0x4000_0000_0000_0000) by (nonlinear_arith)
                requires
                    -0x4000_0000_0000_0000 <= dz <= 0x4000_0000_0000_0000;
            assert(dx * dx >= 0) by (nonlinear_arith);
            assert(dy * dy >= 0) by (nonlinear_arith);
            assert(dz * dz >= 0) by (nonlinear_arith);
        }
        let sq: u128 = (dx * dx + dy * dy + dz * dz) as u128;
        let r = isqrt(sq);
        proof {
            assert(r < 0x1_0000_0000_0000_0000) by (nonlinear_arith)
                requires
                    r * r <= sq,
                    sq < 0xffff_ffff_ffff_ffff * 0xffff_ffff_ffff_ffff,
                    r >= 0;
        }
        r as u64
    }
}

impl ModelData {
    /// The model's display scale: the longest element diagonal, or sixteen
    /// model units when the model holds no elements.
    pub fn scale(&self) -> (r: u64)
        requires
            forall|j: int|
                0 <= j < self.elements@.len() ==> extent_in_range(#[trigger] self.elements@[j]),
        ensures
            self.elements@.len() == 0 ==> r == DEFAULT_SCALE,
            self.elements@.len() > 0 ==> (exists|j: int|
                0 <= j < self.elements@.len() && r * r <= diag_sq(#[trigger] self.elements@[j]))
                && (forall|j: int|
                0 <= j < self.elements@.len() ==> diag_sq(#[trigger] self.elements@[j]) < (r + 1)
                    * (r + 1)),
    {
        if self.elements.len() == 0 {
            return DEFAULT_SCALE;
        }
        let mut best: u64 = 0;
        let first = self.elements[0].max();
        best = first;
        proof {
            assert(best * best <= diag_sq(self.elements@[0]));
        }
        let n = self.elements.len();
        let mut i: usize = 1;
        while i < n
            invariant
                n == self.elements@.len(),
                1 <= i <= n,
                forall|j: int|
                    0 <= j < self.elements@.len() ==> extent_in_range(
                        #[trigger] self.elements@[j],
                    ),
                exists|j: int|
                    0 <= j < i && best * best <= diag_sq(#[trigger] self.elements@[j]),
                forall|j: int|
                    0 <= j < i ==> diag_sq(#[trigger] self.elements@[j]) < (best + 1) * (best
                        + 1),
            decreases n - i,
        {
            let m = self.elements[i].max();
            if m > best {
                proof {
                    let w = choose|j: int|
                        0 <= j < i && best * best <= diag_sq(#[trigger] self.elements@[j]);
                    assert forall|j: int|
                        0 <= j < i + 1 implies diag_sq(#[trigger] self.elements@[j]) < (m + 1) * (
                    m + 1) by {
                        if j < i {
                            assert(diag_sq(self.elements@[j]) < (best + 1) * (best + 1));
                            assert((best + 1) * (best + 1) <= (m + 1) * (m + 1))
                                by (nonlinear_arith)
                                requires
                                    0 <= best < m;
                        }
                    }
                }
                best = m;
            } else {
                proof {
                    assert(diag_sq(self.elements@[i as int]) < (m + 1) * (m + 1));
                    assert((m + 1) * (m + 1) <= (best + 1) * (best + 1)) by (nonlinear_arith)
                        requires
                            0 <= m <= best;
                }
            }
            i += 1;
        }
        best
    }
}

} // verus!
