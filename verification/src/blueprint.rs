use vstd::prelude::*;
use crate::animation::animation_resolved;
use crate::animation::animation_samples_ok_data;
use crate::animation::BlueprintAnimation;
use crate::bone::is_parsed;
use crate::bone::BoneName;
use crate::bone::BoneTag;
use crate::bone::BoneTagRegistry;
use crate::math::Vec3;
use crate::model::ModelChildren;
use crate::model::ModelElement;
use crate::model::ModelTexture;
use crate::model::ModelData;
use crate::model::ModelResolution;
use crate::model::diag_sq;
use crate::model::extent_in_range;
use crate::model::DEFAULT_SCALE;
use crate::model::ModelUV;
use crate::model::ModelFace;
use crate::text::str_eq_chars;

verus! {

/// Why a blueprint build failed, naming the offending reference or
/// texture. Any failure aborts the whole build; there is no partial
/// blueprint.
#[derive(Clone, Debug)]
pub enum BlueprintError {
    /// A leaf element reference names a uuid no element carries.
    MissingElement { uuid: String },
    /// A texture's source is not a data URL with an encoded payload.
    InvalidDataUrl { texture: String },
    /// A texture's payload is not valid base64.
    Base64Decode { texture: String },
    /// A texture's decoded bytes are not a decodable image.
    ImageDecode { texture: String },
}

/// A resolved group of the bone hierarchy: its parsed bone name, its
/// pivot and rotation, and its owned children.
pub struct BlueprintGroup {
    pub name: BoneName,
    pub origin: Vec3,
    pub rotation: Vec3,
    pub children: Vec<BlueprintChildren>,
}

/// One resolved hierarchy child: a cuboid element or a nested group.
pub enum BlueprintChildren {
    Element(ModelElement),
    Group(BlueprintGroup),
}

/// The first element carrying the uuid, if any.
pub open spec fn find_element_spec(elements: Seq<ModelElement>, uuid: Seq<char>) -> Option<
    ModelElement,
>
    decreases elements.len(),
{
    if elements.len() == 0 {
        None
    } else if elements[0].uuid@ == uuid {
        Some(elements[0])
    } else {
        find_element_spec(elements.drop_first(), uuid)
    }
}

/// Whether every leaf reference under the node resolves to an element.
pub open spec fn resolvable(elements: Seq<ModelElement>, value: ModelChildren) -> bool
    decreases value,
{
    match value {
        ModelChildren::Element(u) => find_element_spec(elements, u.uuid@) is Some,
        ModelChildren::Group(g) => forall|i: int|
            0 <= i < g.children@.len() ==> resolvable(elements, #[trigger] g.children@[i]),
    }
}

/// The resolved child mirrors the raw child: a leaf becomes its referenced
/// element, a group keeps its vectors, parses its name against the
/// registry, and mirrors each child in order.
pub open spec fn mirrors(
    registry: Seq<BoneTag>,
    elements: Seq<ModelElement>,
    value: ModelChildren,
    b: BlueprintChildren,
) -> bool
    decreases value,
{
    match value {
        ModelChildren::Element(u) => {
            match b {
                BlueprintChildren::Element(e) => find_element_spec(elements, u.uuid@) == Some(e),
                BlueprintChildren::Group(_) => false,
            }
        },
        ModelChildren::Group(g) => {
            match b {
                BlueprintChildren::Element(_) => false,
                BlueprintChildren::Group(bg) => {
                    &&& is_parsed(registry, g.name@, bg.name)
                    &&& bg.origin == g.origin
                    &&& bg.rotation == g.rotation
                    &&& bg.children@.len() == g.children@.len()
                    &&& forall|i: int|
                        0 <= i < g.children@.len() ==> mirrors(
                            registry,
                            elements,
                            #[trigger] g.children@[i],
                            bg.children@[i],
                        )
                },
            }
        },
    }
}

/// A field-for-field copy of a UV mapping.
fn clone_uv(uv: &ModelUV) -> (r: ModelUV)
    ensures
        r == *uv,
{
    ModelUV { uv: uv.uv, rotation: uv.rotation, texture: uv.texture.clone() }
}

/// A field-for-field copy of a face table.
fn clone_face(f: &ModelFace) -> (r: ModelFace)
    ensures
        r == *f,
{
    ModelFace {
        up: clone_uv(&f.up),
        down: clone_uv(&f.down),
        north: clone_uv(&f.north),
        south: clone_uv(&f.south),
        west: clone_uv(&f.west),
        east: clone_uv(&f.east),
    }
}

/// A field-for-field copy of an element.
fn clone_element(e: &ModelElement) -> (r: ModelElement)
    ensures
        r == *e,
{
    ModelElement {
        name: e.name.clone(),
        uuid: e.uuid.clone(),
        from: e.from,
        to: e.to,
        inflate: e.inflate,
        rotation: e.rotation,
        origin: e.origin,
        faces: clone_face(&e.faces),
        visibility: e.visibility,
    }
}

/// Looks the referenced element up by uuid.
fn find_element(elements: &Vec<ModelElement>, uuid: &str) -> (r: Option<ModelElement>)
    ensures
        match r {
            Some(e) => find_element_spec(elements@, uuid@) == Some(e),
            None => find_element_spec(elements@, uuid@) is None,
        },
{
    let n = elements.len();
    let mut i: usize = 0;
    proof {
        assert(elements@.subrange(0, n as int) =~= elements@);
    }
    while i < n
        invariant
            n == elements@.len(),
            i <= n,
            find_element_spec(elements@, uuid@) == find_element_spec(
                elements@.subrange(i as int, n as int),
                uuid@,
            ),
            forall|j: int| 0 <= j < i ==> elements@[j].uuid@ != uuid@,
        decreases n - i,
    {
        let ghost before = elements@.subrange(i as int, n as int);
        proof {
            assert(before.len() > 0);
            assert(before[0] == elements@[i as int]);
            assert(before.drop_first() =~= elements@.subrange(i as int + 1, n as int));
        }
        if str_eq_chars(elements[i].uuid.as_str(), uuid) {
            let e = clone_element(&elements[i]);
            return Some(e);
        }
        i += 1;
    }
    proof {
        assert(elements@.subrange(n as int, n as int) =~= Seq::<ModelElement>::empty());
    }
    None
}

impl BlueprintChildren {
    /// Resolves one raw outliner child against the element table and the
    /// registry. A leaf reference naming an absent uuid is fatal; the
    /// build succeeds exactly when every reference under the child
    /// resolves.
    pub fn from(
        value: &ModelChildren,
        elements: &Vec<ModelElement>,
        registry: &BoneTagRegistry,
    ) -> (r: Result<BlueprintChildren, BlueprintError>)
        requires
            registry.wf(),
        ensures
            r is Ok <==> resolvable(elements@, *value),
            match r {
                Ok(b) => mirrors(registry.tags@, elements@, *value, b),
                Err(e) => e matches BlueprintError::MissingElement { uuid } && find_element_spec(
                    elements@,
                    uuid@,
                ) is None,
            },
        decreases *value,
    {
        match value {
            ModelChildren::Element(u) => {
                match find_element(elements, u.uuid.as_str()) {
                    Some(e) => Ok(BlueprintChildren::Element(e)),
                    None => Err(BlueprintError::MissingElement { uuid: u.uuid.clone() }),
                }
            },
            ModelChildren::Group(group) => {
                let n = group.children.len();
                let mut out: Vec<BlueprintChildren> = Vec::new();
                let mut i: usize = 0;
                while i < n
                    invariant
                        registry.wf(),
                        *value == ModelChildren::Group(*group),
                        n == group.children@.len(),
                        i <= n,
                        out@.len() == i,
                        forall|m: int|
                            0 <= m < i ==> mirrors(
                                registry.tags@,
                                elements@,
                                #[trigger] group.children@[m],
                                out@[m],
                            ),
                        forall|m: int|
                            0 <= m < i ==> resolvable(elements@, #[trigger] group.children@[m]),
                    decreases n - i,
                {
                    proof {
                        assert(decreases_to!(*value => (*value)->Group_0));
                        assert((*value)->Group_0 == *group);
                        assert(decreases_to!(*group => group.children));
                        assert(decreases_to!(group.children => group.children@));
                        assert(decreases_to!(group.children@ => group.children@[i as int]));
                    }
                    match BlueprintChildren::from(&group.children[i], elements, registry) {
                        Ok(b) => {
                            out.push(b);
                        },
                        Err(e) => {
                            proof {
                                assert(!resolvable(elements@, group.children@[i as int]));
                                assert(!resolvable(elements@, *value));
                            }
                            return Err(e);
                        },
                    }
                    i += 1;
                }
                let name = registry.parse(group.name.as_str());
                Ok(
                    BlueprintChildren::Group(
                        BlueprintGroup {
                            name,
                            origin: group.origin,
                            rotation: group.rotation,
                            children: out,
                        },
                    ),
                )
            },
        }
    }
}

/// The index of the first comma at or past `j`, or the text's length.
pub open spec fn first_comma_from(s: Seq<char>, j: int) -> int
    recommends
        0 <= j <= s.len(),
    decreases s.len() - j,
{
    if j < 0 || j >= s.len() {
        s.len() as int
    } else if s[j] == ',' {
        j
    } else {
        first_comma_from(s, j + 1)
    }
}

/// The scan's stopping shape pins the first comma position.
proof fn lemma_first_comma_unique(s: Seq<char>, j: int, c: int)
    requires
        0 <= j <= c <= s.len(),
        forall|m: int| j <= m < c ==> s[m] != ',',
        c == s.len() || s[c] == ',',
    ensures
        c == first_comma_from(s, j),
    decreases c - j,
{
    if j < c {
        lemma_first_comma_unique(s, j + 1, c);
    }
}

/// The base64 payload of a data URL: the text between the first comma and
/// the second (or the end), or nothing when no comma is present.
pub open spec fn data_url_payload(s: Seq<char>) -> Option<Seq<char>> {
    let c1 = first_comma_from(s, 0);
    if c1 == s.len() {
        None
    } else {
        Some(s.subrange(c1 + 1, first_comma_from(s, c1 + 1)))
    }
}

/// What standard base64 decoding yields for a text: the decoded bytes, or
/// nothing when the text is not valid standard base64; a function of the
/// text alone.
pub uninterp spec fn base64_decode_of(s: Seq<char>) -> Option<Seq<u8>>;

/// Relies on base64's BASE64_STANDARD engine: whether decoding succeeds,
/// and the bytes it yields, depend on the text alone.
#[verifier::external_body]
fn base64_decode(s: &str) -> (r: Result<Vec<u8>, ()>)
    ensures
        match r {
            Ok(b) => base64_decode_of(s@) == Some(b@),
            Err(_) => base64_decode_of(s@) is None,
        },
{
    match base64::Engine::decode(&base64::prelude::BASE64_STANDARD, s) {
        Ok(b) => Ok(b),
        Err(_) => Err(()),
    }
}

/// What decoding an image byte stream yields: its pixel dimensions and its
/// RGBA bytes, or nothing when the bytes are no decodable image; a
/// function of the bytes alone.
pub uninterp spec fn decoded_rgba_of(bytes: Seq<u8>) -> Option<(u32, u32, Seq<u8>)>;

/// A decoded texture image: pixel dimensions and tightly packed RGBA
/// bytes, four per pixel.
pub struct TextureImage {
    pub width: u32,
    pub height: u32,
    pub pixels: Vec<u8>,
}

/// Relies on image's load_from_memory and into_rgba8: success and the
/// decoded RGBA buffer depend on the bytes alone, and the buffer holds
/// four bytes per pixel.
#[verifier::external_body]
fn decode_rgba(bytes: &[u8]) -> (r: Result<TextureImage, ()>)
    ensures
        match r {
            Ok(img) => decoded_rgba_of(bytes@) == Some((img.width, img.height, img.pixels@))
                && img.pixels@.len() == 4 * img.width * img.height,
            Err(_) => decoded_rgba_of(bytes@) is None,
        },
{
    match image::load_from_memory(bytes) {
        Ok(img) => {
            let rgba = img.into_rgba8();
            let width = rgba.width();
            let height = rgba.height();
            Ok(TextureImage { width, height, pixels: rgba.into_raw() })
        },
        Err(_) => Err(()),
    }
}

/// The whole texture pipeline: payload extracted, base64-decoded, image-
/// decoded; nothing when any stage refuses.
pub open spec fn texture_decode(source: Seq<char>) -> Option<(u32, u32, Seq<u8>)> {
    match data_url_payload(source) {
        None => None,
        Some(payload) => match base64_decode_of(payload) {
            None => None,
            Some(bytes) => decoded_rgba_of(bytes),
        },
    }
}

/// The comma-delimited base64 payload of a texture's data-URL source.
fn extract_payload<'a>(source: &'a str) -> (r: Option<&'a str>)
    ensures
        match r {
            Some(p) => data_url_payload(source@) == Some(p@),
            None => data_url_payload(source@) is None,
        },
{
    let n = source.unicode_len();
    let mut i: usize = 0;
    while i < n && source.get_char(i) != ','
        invariant
            n == source@.len(),
            i <= n,
            forall|m: int| 0 <= m < i ==> source@[m] != ',',
        decreases n - i,
    {
        i += 1;
    }
    proof {
        lemma_first_comma_unique(source@, 0, i as int);
    }
    if i == n {
        return None;
    }
    let mut j: usize = i + 1;
    while j < n && source.get_char(j) != ','
        invariant
            n == source@.len(),
            i + 1 <= j <= n,
            forall|m: int| i + 1 <= m < j ==> source@[m] != ',',
        decreases n - j,
    {
        j += 1;
    }
    proof {
        lemma_first_comma_unique(source@, i as int + 1, j as int);
    }
    Some(source.substring_char(i + 1, j))
}

/// A resolved texture: its name, its decoded image, and its UV extents.
pub struct BlueprintTexture {
    pub name: String,
    pub image: TextureImage,
    pub uv_width: u32,
    pub uv_height: u32,
}

impl BlueprintTexture {
    /// Decodes one texture entry: the data-URL payload is base64-decoded
    /// and the bytes decoded into RGBA pixels. A malformed source, bad
    /// base64 or undecodable bytes each fail the build, naming the
    /// texture.
    pub fn from(value: &ModelTexture) -> (r: Result<BlueprintTexture, BlueprintError>)
        ensures
            r is Ok <==> texture_decode(value.source@) is Some,
            match r {
                Ok(t) => {
                    &&& texture_decode(value.source@) == Some(
                        (t.image.width, t.image.height, t.image.pixels@),
                    )
                    &&& t.image.pixels@.len() == 4 * t.image.width * t.image.height
                    &&& t.name@ == value.name@
                    &&& t.uv_width == value.uv_width
                    &&& t.uv_height == value.uv_height
                },
                Err(e) => match e {
                    BlueprintError::InvalidDataUrl { texture } => texture@ == value.name@
                        && data_url_payload(value.source@) is None,
                    BlueprintError::Base64Decode { texture } => texture@ == value.name@
                        && data_url_payload(value.source@) is Some && base64_decode_of(
                        data_url_payload(value.source@)->0,
                    ) is None,
                    BlueprintError::ImageDecode { texture } => texture@ == value.name@
                        && texture_decode(value.source@) is None,
                    _ => false,
                },
            },
    {
        let payload = match extract_payload(value.source.as_str()) {
            Some(p) => p,
            None => {
                return Err(BlueprintError::InvalidDataUrl { texture: value.name.clone() });
            },
        };
        let decoded = match base64_decode(payload) {
            Ok(b) => b,
            Err(_) => {
                return Err(BlueprintError::Base64Decode { texture: value.name.clone() });
            },
        };
        let image = match decode_rgba(decoded.as_slice()) {
            Ok(img) => img,
            Err(_) => {
                return Err(BlueprintError::ImageDecode { texture: value.name.clone() });
            },
        };
        Ok(
            BlueprintTexture {
                name: value.name.clone(),
                image,
                uv_width: value.uv_width,
                uv_height: value.uv_height,
            },
        )
    }
}

/// What resolving one texture yields.
pub open spec fn texture_resolved(mt: ModelTexture, t: BlueprintTexture) -> bool {
    &&& texture_decode(mt.source@) == Some((t.image.width, t.image.height, t.image.pixels@))
    &&& t.image.pixels@.len() == 4 * t.image.width * t.image.height
    &&& t.name@ == mt.name@
    &&& t.uv_width == mt.uv_width
    &&& t.uv_height == mt.uv_height
}

/// The fully resolved blueprint: the model's name and display scale, its
/// resolution, decoded textures, resolved hierarchy, and one resolved
/// animation per raw definition.
pub struct ModelBlueprint {
    pub name: String,
    pub scale: u64,
    pub resolution: ModelResolution,
    pub textures: Vec<BlueprintTexture>,
    pub group: Vec<BlueprintChildren>,
    pub animations: Vec<(String, BlueprintAnimation)>,
}

impl ModelBlueprint {
    /// Builds the whole blueprint from a decoded document. Any unresolved
    /// element reference or undecodable texture aborts the build; the
    /// animations are resolved against a synthetic root group spanning the
    /// outliner forest, so leaf placeholders cover the whole hierarchy.
    #[verifier::rlimit(60)]
    pub fn from(registry: &BoneTagRegistry, data: ModelData) -> (r: Result<
        ModelBlueprint,
        BlueprintError,
    >)
        requires
            registry.wf(),
            animation_samples_ok_data(data),
            forall|j: int|
                0 <= j < data.elements@.len() ==> extent_in_range(#[trigger] data.elements@[j]),
        ensures
            r is Ok <==> ((forall|i: int|
                0 <= i < data.outliner@.len() ==> resolvable(
                    data.elements@,
                    #[trigger] data.outliner@[i],
                )) && (forall|i: int|
                0 <= i < data.textures@.len() ==> texture_decode(
                    (#[trigger] data.textures@[i]).source@,
                ) is Some)),
            match r {
                Ok(b) => {
                    &&& b.name@ == data.name@
                    &&& b.resolution == data.resolution
                    &&& (data.elements@.len() == 0 ==> b.scale == DEFAULT_SCALE)
                    &&& (data.elements@.len() > 0 ==> (exists|j: int|
                        0 <= j < data.elements@.len() && b.scale * b.scale <= diag_sq(
                            #[trigger] data.elements@[j],
                        )) && (forall|j: int|
                        0 <= j < data.elements@.len() ==> diag_sq(#[trigger] data.elements@[j]) < (
                        b.scale + 1) * (b.scale + 1)))
                    &&& b.group@.len() == data.outliner@.len()
                    &&& (forall|i: int|
                        0 <= i < data.outliner@.len() ==> mirrors(
                            registry.tags@,
                            data.elements@,
                            #[trigger] data.outliner@[i],
                            b.group@[i],
                        ))
                    &&& b.textures@.len() == data.textures@.len()
                    &&& (forall|i: int|
                        0 <= i < data.textures@.len() ==> texture_resolved(
                            #[trigger] data.textures@[i],
                            b.textures@[i],
                        ))
                    &&& b.animations@.len() == data.animations@.len()
                    &&& (forall|i: int|
                        0 <= i < data.animations@.len() ==> (#[trigger] b.animations@[i]).0@
                            == data.animations@[i].name@)
                    &&& exists|root: BlueprintGroup|
                        #![auto]
                        is_parsed(registry.tags@, data.name@, root.name) && root.children@
                            == b.group@ && forall|i: int|
                            0 <= i < data.animations@.len() ==> animation_resolved(
                                registry.tags@,
                                root,
                                data.animations@[i],
                                (#[trigger] b.animations@[i]).1,
                            )
                },
                Err(e) => match e {
                    BlueprintError::MissingElement { uuid } => find_element_spec(
                        data.elements@,
                        uuid@,
                    ) is None,
                    BlueprintError::InvalidDataUrl { texture } => exists|i: int|
                        0 <= i < data.textures@.len() && (#[trigger] data.textures@[i]).name@
                            == texture@ && data_url_payload(data.textures@[i].source@) is None,
                    BlueprintError::Base64Decode { texture } => exists|i: int|
                        0 <= i < data.textures@.len() && (#[trigger] data.textures@[i]).name@
                            == texture@ && texture_decode(data.textures@[i].source@) is None,
                    BlueprintError::ImageDecode { texture } => exists|i: int|
                        0 <= i < data.textures@.len() && (#[trigger] data.textures@[i]).name@
                            == texture@ && texture_decode(data.textures@[i].source@) is None,
                },
            },
    {
        let scale = data.scale();
        let mut group: Vec<BlueprintChildren> = Vec::new();
        let n = data.outliner.len();
        let mut i: usize = 0;
        while i < n
            invariant
                registry.wf(),
                n == data.outliner@.len(),
                i <= n,
                group@.len() == i,
                forall|m: int|
                    0 <= m < i ==> mirrors(
                        registry.tags@,
                        data.elements@,
                        #[trigger] data.outliner@[m],
                        group@[m],
                    ),
                forall|m: int|
                    0 <= m < i ==> resolvable(data.elements@, #[trigger] data.outliner@[m]),
            decreases n - i,
        {
            match BlueprintChildren::from(&data.outliner[i], &data.elements, registry) {
                Ok(b) => {
                    group.push(b);
                },
                Err(e) => {
                    return Err(e);
                },
            }
            i += 1;
        }
        let mut textures: Vec<BlueprintTexture> = Vec::new();
        let tn = data.textures.len();
        let mut i: usize = 0;
        while i < tn
            invariant
                tn == data.textures@.len(),
                i <= tn,
                textures@.len() == i,
                forall|m: int|
                    0 <= m < i ==> texture_resolved(
                        #[trigger] data.textures@[m],
                        textures@[m],
                    ),
                forall|m: int|
                    0 <= m < i ==> texture_decode((#[trigger] data.textures@[m]).source@) is Some,
            decreases tn - i,
        {
            match BlueprintTexture::from(&data.textures[i]) {
                Ok(t) => {
                    textures.push(t);
                },
                Err(e) => {
                    return Err(e);
                },
            }
            i += 1;
        }
        let root = BlueprintGroup {
            name: registry.parse(data.name.as_str()),
            origin: Vec3::new(0, 0, 0),
            rotation: Vec3::new(0, 0, 0),
            children: group,
        };
        let mut animations: Vec<(String, BlueprintAnimation)> = Vec::new();
        let an = data.animations.len();
        let mut i: usize = 0;
        while i < an
            invariant
                registry.wf(),
                animation_samples_ok_data(data),
                an == data.animations@.len(),
                i <= an,
                animations@.len() == i,
                is_parsed(registry.tags@, data.name@, root.name),
                forall|m: int|
                    0 <= m < i ==> (#[trigger] animations@[m]).0@ == data.animations@[m].name@,
                forall|m: int|
                    0 <= m < i ==> animation_resolved(
                        registry.tags@,
                        root,
                        data.animations@[m],
                        (#[trigger] animations@[m]).1,
                    ),
            decreases an - i,
        {
            let anim = &data.animations[i];
            let resolved = BlueprintAnimation::from(registry, &root, anim);
            animations.push((anim.name.clone(), resolved));
            i += 1;
        }
        let BlueprintGroup { children: group, name: root_name, origin: _, rotation: _ } = root;
        let ghost root_spec = BlueprintGroup {
            name: root_name,
            origin: Vec3 { x: 0, y: 0, z: 0 },
            rotation: Vec3 { x: 0, y: 0, z: 0 },
            children: group,
        };
        let r = ModelBlueprint {
            name: data.name.clone(),
            scale,
            resolution: data.resolution,
            textures,
            group,
            animations,
        };
        proof {
            assert(root_spec.children@ == r.group@);
        }
        Ok(r)
    }
}

} // verus!
