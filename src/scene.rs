//! The scene model and how each of its entities is encoded.

use vstd::prelude::*;
use crate::bytes::{u32_le, u32_of_le, lemma_u32_le, lemma_le_u32, push_u32, ReadCursor};
use crate::math::{Vec2, Vec3, Vec4, Mat4};
use crate::record::Record;
use crate::allocator::{
    SeqAllocator, HeapAllocator, reserve_all, lemma_reserve_all_append, lemma_heap_grants_all,
};
use crate::codec::{
    DecodeError, Serialize, Deserialize, take_record, lemma_prefix_split, lemma_rest_advance,
    counted_wire, counted_requests, all_requests, serialize_counted, deserialize_counted,
    lemma_counted_prefix_free, lemma_counted_injective,
};
use vstd::layout::{size_of, align_of, layout_for_type_is_valid};

verus! {

/// Pixel format of an image: four bytes per pixel either way.
#[derive(Clone, Copy, Debug, PartialEq, Eq, Structural)]
pub enum Format {
    RGBA8,
    SRGBA8,
}

pub open spec fn format_tag(f: Format) -> u32 {
    match f {
        Format::RGBA8 => 0,
        Format::SRGBA8 => 1,
    }
}

impl Format {
    /// The tag that stands for this format on the wire.
    pub fn tag(&self) -> (r: u32)
        ensures
            r == format_tag(*self),
    {
        match self {
            Format::RGBA8 => 0,
            Format::SRGBA8 => 1,
        }
    }

    /// The format that `tag` stands for, if any.
    pub fn from_tag(tag: u32) -> (r: Option<Format>)
        ensures
            match r {
                Some(f) => format_tag(f) == tag,
                None => tag > 1,
            },
    {
        match tag {
            0 => Some(Format::RGBA8),
            1 => Some(Format::SRGBA8),
            _ => None,
        }
    }
}

impl View for Format {
    type V = Format;

    open spec fn view(&self) -> Format {
        *self
    }
}

impl Serialize for Format {
    open spec fn wire(&self) -> Seq<u8> {
        u32_le(format_tag(*self))
    }

    fn serialize_buf(&self, buf: &mut Vec<u8>) {
        push_u32(buf, self.tag());
    }
}

impl Deserialize for Format {
    open spec fn requests(&self) -> Seq<(nat, nat)> {
        seq![]
    }

    proof fn lemma_prefix_free(&self, other: &Self, s: Seq<u8>) {
        lemma_u32_le(format_tag(*self));
        lemma_u32_le(format_tag(*other));
        assert(self.wire() =~= s.take(4));
        assert(other.wire() =~= s.take(4));
    }

    proof fn lemma_wire_injective(&self, other: &Self) {
        lemma_u32_le(format_tag(*self));
        lemma_u32_le(format_tag(*other));
    }

    proof fn lemma_wire_nonempty(&self) {
    }

    fn deserialize_in<A: SeqAllocator>(cur: &mut ReadCursor, a: &mut A) -> (r: Result<Format, DecodeError>) {
        let ghost rest = cur.rest();
        let tag = match cur.take_u32() {
            Some(t) => t,
            None => {
                assert forall|v: Format| !(#[trigger] v.wire()).is_prefix_of(rest) by {
                    lemma_u32_le(format_tag(v));
                }
                return Err(DecodeError::Format);
            },
        };
        match Format::from_tag(tag) {
            Some(f) => {
                proof {
                    lemma_le_u32(rest.take(4));
                    assert(reserve_all(*a, f.requests()) == Some(*a));
                }
                Ok(f)
            },
            None => {
                assert forall|v: Format| !(#[trigger] v.wire()).is_prefix_of(rest) by {
                    lemma_u32_le(format_tag(v));
                    if v.wire().is_prefix_of(rest) {
                        assert(rest.take(4) =~= v.wire());
                    }
                }
                Err(DecodeError::Format)
            },
        }
    }
}

/// What one channel of a material holds.
#[derive(Clone, Copy, Debug, PartialEq, Eq, Structural)]
pub enum MaterialParameter {
    /// The channel contributes nothing.
    Absent,
    /// Index of an image of the scene; the codec does not check its range.
    Texture(u32),
    Vec2(Vec2),
    Vec3(Vec3),
    Vec4(Vec4),
}

pub open spec fn parameter_tag(p: MaterialParameter) -> u32 {
    match p {
        MaterialParameter::Absent => 0,
        MaterialParameter::Texture(_) => 1,
        MaterialParameter::Vec2(_) => 2,
        MaterialParameter::Vec3(_) => 3,
        MaterialParameter::Vec4(_) => 4,
    }
}

/// The bytes that follow the tag of a parameter.
pub open spec fn parameter_payload(p: MaterialParameter) -> Seq<u8> {
    match p {
        MaterialParameter::Absent => seq![],
        MaterialParameter::Texture(t) => t.to_bytes(),
        MaterialParameter::Vec2(v) => v.to_bytes(),
        MaterialParameter::Vec3(v) => v.to_bytes(),
        MaterialParameter::Vec4(v) => v.to_bytes(),
    }
}

proof fn lemma_payload(p: MaterialParameter)
    ensures
        parameter_payload(p).len() == match parameter_tag(p) {
            0 => 0nat,
            1 => 4,
            2 => 8,
            3 => 12,
            _ => 16,
        },
{
    match p {
        MaterialParameter::Absent => {},
        MaterialParameter::Texture(t) => t.lemma_record(),
        MaterialParameter::Vec2(v) => v.lemma_record(),
        MaterialParameter::Vec3(v) => v.lemma_record(),
        MaterialParameter::Vec4(v) => v.lemma_record(),
    }
}

impl MaterialParameter {
    /// The tag that stands for this variant on the wire.
    pub fn tag(&self) -> (r: u32)
        ensures
            r == parameter_tag(*self),
    {
        match self {
            MaterialParameter::Absent => 0,
            MaterialParameter::Texture(_) => 1,
            MaterialParameter::Vec2(_) => 2,
            MaterialParameter::Vec3(_) => 3,
            MaterialParameter::Vec4(_) => 4,
        }
    }
}

impl View for MaterialParameter {
    type V = MaterialParameter;

    open spec fn view(&self) -> MaterialParameter {
        *self
    }
}

impl Serialize for MaterialParameter {
    open spec fn wire(&self) -> Seq<u8> {
        u32_le(parameter_tag(*self)) + parameter_payload(*self)
    }

    fn serialize_buf(&self, buf: &mut Vec<u8>) {
        push_u32(buf, self.tag());
        match self {
            MaterialParameter::Absent => {},
            MaterialParameter::Texture(t) => t.write_record(buf),
            MaterialParameter::Vec2(v) => v.write_record(buf),
            MaterialParameter::Vec3(v) => v.write_record(buf),
            MaterialParameter::Vec4(v) => v.write_record(buf),
        }
        assert(final(buf)@ =~= old(buf)@ + self.wire());
    }
}

/// Reads the payload of a parameter whose tag is `tag`, in `1..=4`.
fn take_payload(cur: &mut ReadCursor, tag: u32) -> (r: Option<MaterialParameter>)
    requires
        old(cur).wf(),
        1 <= tag <= 4,
    ensures
        final(cur).wf(),
        final(cur).bytes == old(cur).bytes,
        match r {
            Some(p) => {
                &&& parameter_tag(p) == tag
                &&& parameter_payload(p).is_prefix_of(old(cur).rest())
                &&& final(cur).pos == old(cur).pos + parameter_payload(p).len()
            },
            None => forall|p: MaterialParameter|
                parameter_tag(p) == tag ==> !(#[trigger] parameter_payload(p)).is_prefix_of(
                    old(cur).rest(),
                ),
        },
{
    let ghost rest = cur.rest();
    proof {
        assert forall|p: MaterialParameter| parameter_tag(p) == tag implies #[trigger] parameter_payload(p).len()
            == if tag == 1 { 4nat } else if tag == 2 { 8nat } else if tag == 3 { 12nat } else { 16nat } by {
            lemma_payload(p);
        }
    }
    if tag == 1 {
        match take_record::<u32>(cur) {
            Some(t) => {
                proof {
                    u32::lemma_bytes(rest.take(4));
                }
                Some(MaterialParameter::Texture(t))
            },
            None => None,
        }
    } else if tag == 2 {
        match take_record::<Vec2>(cur) {
            Some(v) => {
                proof {
                    Vec2::lemma_bytes(rest.take(8));
                }
                Some(MaterialParameter::Vec2(v))
            },
            None => None,
        }
    } else if tag == 3 {
        match take_record::<Vec3>(cur) {
            Some(v) => {
                proof {
                    Vec3::lemma_bytes(rest.take(12));
                }
                Some(MaterialParameter::Vec3(v))
            },
            None => None,
        }
    } else {
        match take_record::<Vec4>(cur) {
            Some(v) => {
                proof {
                    Vec4::lemma_bytes(rest.take(16));
                }
                Some(MaterialParameter::Vec4(v))
            },
            None => None,
        }
    }
}

impl Deserialize for MaterialParameter {
    open spec fn requests(&self) -> Seq<(nat, nat)> {
        seq![]
    }

    proof fn lemma_prefix_free(&self, other: &Self, s: Seq<u8>) {
        lemma_u32_le(parameter_tag(*self));
        lemma_u32_le(parameter_tag(*other));
        lemma_payload(*self);
        lemma_payload(*other);
        assert(u32_le(parameter_tag(*self)) =~= s.take(4));
        assert(u32_le(parameter_tag(*other)) =~= s.take(4));
        assert(parameter_tag(*self) == parameter_tag(*other));
        assert(self.wire() =~= s.take(self.wire().len() as int));
        assert(other.wire() =~= s.take(other.wire().len() as int));
    }

    proof fn lemma_wire_injective(&self, other: &Self) {
        self.lemma_prefix_free(other, self.wire());
        let s = self.wire();
        assert(u32_le(parameter_tag(*self)) =~= s.take(4));
        assert(u32_le(parameter_tag(*other)) =~= s.take(4));
        lemma_u32_le(parameter_tag(*self));
        lemma_u32_le(parameter_tag(*other));
        assert(parameter_payload(*self) =~= s.skip(4));
        assert(parameter_payload(*other) =~= s.skip(4));
        match (*self, *other) {
            (MaterialParameter::Texture(x), MaterialParameter::Texture(y)) => {
                x.lemma_record();
                y.lemma_record();
            },
            (MaterialParameter::Vec2(x), MaterialParameter::Vec2(y)) => {
                x.lemma_record();
                y.lemma_record();
            },
            (MaterialParameter::Vec3(x), MaterialParameter::Vec3(y)) => {
                x.lemma_record();
                y.lemma_record();
            },
            (MaterialParameter::Vec4(x), MaterialParameter::Vec4(y)) => {
                x.lemma_record();
                y.lemma_record();
            },
            _ => {},
        }
    }

    proof fn lemma_wire_nonempty(&self) {
    }

    fn deserialize_in<A: SeqAllocator>(cur: &mut ReadCursor, a: &mut A) -> (r: Result<MaterialParameter, DecodeError>) {
        let ghost c0 = *cur;
        let ghost rest = cur.rest();
        let tag = match cur.take_u32() {
            Some(t) => t,
            None => {
                assert forall|v: MaterialParameter| !(#[trigger] v.wire()).is_prefix_of(rest) by {
                    lemma_u32_le(parameter_tag(v));
                }
                return Err(DecodeError::Format);
            },
        };
        proof {
            lemma_le_u32(rest.take(4));
            assert forall|v: MaterialParameter| (#[trigger] v.wire()).is_prefix_of(rest) implies
                parameter_tag(v) == tag && parameter_payload(v).is_prefix_of(
                rest.subrange(4, rest.len() as int),
            ) by {
                lemma_u32_le(parameter_tag(v));
                lemma_prefix_split(u32_le(parameter_tag(v)), parameter_payload(v), rest);
                assert(rest.take(4) =~= u32_le(parameter_tag(v)));
            }
            lemma_rest_advance(c0, *cur, 4);
        }
        if tag == 0 {
            let p = MaterialParameter::Absent;
            assert(p.wire() =~= rest.take(4));
            assert(reserve_all(*a, p.requests()) == Some(*a));
            return Ok(p);
        }
        if tag > 4 {
            return Err(DecodeError::Format);
        }
        match take_payload(cur, tag) {
            Some(p) => {
                proof {
                    lemma_prefix_split(u32_le(tag), parameter_payload(p), rest);
                    assert(reserve_all(*a, p.requests()) == Some(*a));
                }
                Ok(p)
            },
            None => Err(DecodeError::Format),
        }
    }
}

/// The four channels of a mesh's material.
#[derive(Clone, Copy, Debug, PartialEq, Eq, Structural)]
pub struct Material {
    pub base_color: MaterialParameter,
    pub normal: MaterialParameter,
    pub specular: MaterialParameter,
    pub emissive: MaterialParameter,
}

impl Material {
    /// The channels in wire order.
    pub open spec fn parts(self) -> (
        (MaterialParameter, MaterialParameter),
        (MaterialParameter, MaterialParameter),
    ) {
        ((self.base_color, self.normal), (self.specular, self.emissive))
    }
}

impl View for Material {
    type V = Material;

    open spec fn view(&self) -> Material {
        *self
    }
}

impl Serialize for Material {
    open spec fn wire(&self) -> Seq<u8> {
        self.parts().wire()
    }

    fn serialize_buf(&self, buf: &mut Vec<u8>) {
        let parts = ((self.base_color, self.normal), (self.specular, self.emissive));
        parts.serialize_buf(buf);
    }
}

impl Deserialize for Material {
    open spec fn requests(&self) -> Seq<(nat, nat)> {
        self.parts().requests()
    }

    proof fn lemma_prefix_free(&self, other: &Self, s: Seq<u8>) {
        self.parts().lemma_prefix_free(&other.parts(), s);
    }

    proof fn lemma_wire_injective(&self, other: &Self) {
        self.parts().lemma_wire_injective(&other.parts());
    }

    proof fn lemma_wire_nonempty(&self) {
        self.parts().lemma_wire_nonempty();
    }

    fn deserialize_in<A: SeqAllocator>(cur: &mut ReadCursor, a: &mut A) -> (r: Result<Material, DecodeError>) {
        let ghost rest = cur.rest();
        let ghost a0 = *a;
        let r = <(
            (MaterialParameter, MaterialParameter),
            (MaterialParameter, MaterialParameter),
        )>::deserialize_in(cur, a);
        match r {
            Ok(((base_color, normal), (specular, emissive))) => {
                Ok(Material { base_color, normal, specular, emissive })
            },
            Err(e) => {
                assert forall|v: Material| (#[trigger] v.wire()).is_prefix_of(rest) implies (
                e is Alloc && reserve_all(a0, v.requests()) is None) by {
                    assert(v.parts().wire().is_prefix_of(rest));
                }
                Err(e)
            },
        }
    }
}

/// A mesh: per-vertex attributes, triangle indices, its transform and its
/// material.
#[derive(Debug, PartialEq)]
pub struct Mesh {
    pub positions: Vec<Vec3>,
    pub normals: Vec<Vec3>,
    pub tangents: Vec<Vec3>,
    pub uvs: Vec<Vec2>,
    pub indices: Vec<u32>,
    pub transform: Mat4,
    pub material: Material,
}

pub struct MeshView {
    pub positions: Seq<Vec3>,
    pub normals: Seq<Vec3>,
    pub tangents: Seq<Vec3>,
    pub uvs: Seq<Vec2>,
    pub indices: Seq<u32>,
    pub transform: Mat4,
    pub material: Material,
}

impl View for Mesh {
    type V = MeshView;

    open spec fn view(&self) -> MeshView {
        MeshView {
            positions: self.positions@,
            normals: self.normals@,
            tangents: self.tangents@,
            uvs: self.uvs@,
            indices: self.indices@,
            transform: self.transform,
            material: self.material,
        }
    }
}

impl Mesh {
    /// The fields in wire order.
    pub open spec fn parts(&self) -> (
        ((Vec<Vec3>, Vec<Vec3>), (Vec<Vec3>, Vec<Vec2>)),
        ((Vec<u32>, Mat4), Material),
    ) {
        (
            ((self.positions, self.normals), (self.tangents, self.uvs)),
            ((self.indices, self.transform), self.material),
        )
    }
}

impl Serialize for Mesh {
    open spec fn wire(&self) -> Seq<u8> {
        self.parts().wire()
    }

    fn serialize_buf(&self, buf: &mut Vec<u8>) {
        self.positions.serialize_buf(buf);
        self.normals.serialize_buf(buf);
        self.tangents.serialize_buf(buf);
        self.uvs.serialize_buf(buf);
        self.indices.serialize_buf(buf);
        self.transform.serialize_buf(buf);
        self.material.serialize_buf(buf);
        assert(final(buf)@ =~= old(buf)@ + self.wire());
    }
}

impl Deserialize for Mesh {
    open spec fn requests(&self) -> Seq<(nat, nat)> {
        self.parts().requests()
    }

    proof fn lemma_prefix_free(&self, other: &Self, s: Seq<u8>) {
        self.parts().lemma_prefix_free(&other.parts(), s);
    }

    proof fn lemma_wire_injective(&self, other: &Self) {
        self.parts().lemma_wire_injective(&other.parts());
    }

    proof fn lemma_wire_nonempty(&self) {
        self.parts().lemma_wire_nonempty();
    }

    fn deserialize_in<A: SeqAllocator>(cur: &mut ReadCursor, a: &mut A) -> (r: Result<Mesh, DecodeError>) {
        let ghost rest = cur.rest();
        let ghost a0 = *a;
        let r = <(
            ((Vec<Vec3>, Vec<Vec3>), (Vec<Vec3>, Vec<Vec2>)),
            ((Vec<u32>, Mat4), Material),
        )>::deserialize_in(cur, a);
        match r {
            Ok((((positions, normals), (tangents, uvs)), ((indices, transform), material))) => {
                Ok(Mesh { positions, normals, tangents, uvs, indices, transform, material })
            },
            Err(e) => {
                assert forall|v: Mesh| (#[trigger] v.wire()).is_prefix_of(rest) implies (e is Alloc
                    && reserve_all(a0, v.requests()) is None) by {
                    assert(v.parts().wire().is_prefix_of(rest));
                }
                Err(e)
            },
        }
    }
}

/// An image: `width * height` pixels of four bytes, row by row.
#[derive(Debug, PartialEq)]
pub struct Image {
    pub width: u32,
    pub height: u32,
    pub format: Format,
    pub data: Vec<u8>,
}

pub struct ImageView {
    pub width: u32,
    pub height: u32,
    pub format: Format,
    pub data: Seq<u8>,
}

impl View for Image {
    type V = ImageView;

    open spec fn view(&self) -> ImageView {
        ImageView { width: self.width, height: self.height, format: self.format, data: self.data@ }
    }
}

impl Image {
    /// The fields in wire order.
    pub open spec fn parts(&self) -> ((u32, u32), (Format, Vec<u8>)) {
        ((self.width, self.height), (self.format, self.data))
    }
}

impl Serialize for Image {
    open spec fn wire(&self) -> Seq<u8> {
        self.parts().wire()
    }

    fn serialize_buf(&self, buf: &mut Vec<u8>) {
        self.width.serialize_buf(buf);
        self.height.serialize_buf(buf);
        self.format.serialize_buf(buf);
        self.data.serialize_buf(buf);
        assert(final(buf)@ =~= old(buf)@ + self.wire());
    }
}

impl Deserialize for Image {
    open spec fn requests(&self) -> Seq<(nat, nat)> {
        self.parts().requests()
    }

    proof fn lemma_prefix_free(&self, other: &Self, s: Seq<u8>) {
        self.parts().lemma_prefix_free(&other.parts(), s);
    }

    proof fn lemma_wire_injective(&self, other: &Self) {
        self.parts().lemma_wire_injective(&other.parts());
    }

    proof fn lemma_wire_nonempty(&self) {
        self.parts().lemma_wire_nonempty();
    }

    fn deserialize_in<A: SeqAllocator>(cur: &mut ReadCursor, a: &mut A) -> (r: Result<Image, DecodeError>) {
        let ghost rest = cur.rest();
        let ghost a0 = *a;
        let r = <((u32, u32), (Format, Vec<u8>))>::deserialize_in(cur, a);
        match r {
            Ok(((width, height), (format, data))) => Ok(Image { width, height, format, data }),
            Err(e) => {
                assert forall|v: Image| (#[trigger] v.wire()).is_prefix_of(rest) implies (e is Alloc
                    && reserve_all(a0, v.requests()) is None) by {
                    assert(v.parts().wire().is_prefix_of(rest));
                }
                Err(e)
            },
        }
    }
}

/// A scene: its meshes and its images, in order. Materials refer to images
/// by their position.
#[derive(Debug, PartialEq)]
pub struct Scene {
    pub meshes: Vec<Mesh>,
    pub images: Vec<Image>,
}

pub struct SceneView {
    pub meshes: Seq<MeshView>,
    pub images: Seq<ImageView>,
}

impl View for Scene {
    type V = SceneView;

    open spec fn view(&self) -> SceneView {
        SceneView {
            meshes: self.meshes@.map_values(|m: Mesh| m@),
            images: self.images@.map_values(|i: Image| i@),
        }
    }
}

impl Scene {
    /// A scene with no meshes and no images.
    pub fn new() -> (r: Scene)
        ensures
            r.meshes@.len() == 0,
            r.images@.len() == 0,
    {
        Scene { meshes: Vec::new(), images: Vec::new() }
    }

    /// A scene with no meshes and no images, for decoding with `a`: an
    /// empty list takes no memory, so `a` is left as it is.
    pub fn new_in<A: SeqAllocator>(a: &A) -> (r: Scene)
        ensures
            r.meshes@.len() == 0,
            r.images@.len() == 0,
    {
        Scene::new()
    }
}

impl Serialize for Scene {
    open spec fn wire(&self) -> Seq<u8> {
        counted_wire(self.meshes@) + counted_wire(self.images@)
    }

    fn serialize_buf(&self, buf: &mut Vec<u8>) {
        serialize_counted(&self.meshes, buf);
        serialize_counted(&self.images, buf);
        assert(final(buf)@ =~= old(buf)@ + self.wire());
    }
}

impl Deserialize for Scene {
    /// The mesh list, the meshes, the image list and the images.
    open spec fn requests(&self) -> Seq<(nat, nat)> {
        counted_requests(self.meshes@, size_of::<Mesh>(), align_of::<Mesh>()) + counted_requests(
            self.images@,
            size_of::<Image>(),
            align_of::<Image>(),
        )
    }

    proof fn lemma_prefix_free(&self, other: &Self, s: Seq<u8>) {
        lemma_prefix_split(counted_wire(self.meshes@), counted_wire(self.images@), s);
        lemma_prefix_split(counted_wire(other.meshes@), counted_wire(other.images@), s);
        lemma_counted_prefix_free(self.meshes@, other.meshes@, s);
        lemma_counted_prefix_free(
            self.images@,
            other.images@,
            s.subrange(counted_wire(self.meshes@).len() as int, s.len() as int),
        );
    }

    proof fn lemma_wire_injective(&self, other: &Self) {
        let s = self.wire();
        lemma_prefix_split(counted_wire(self.meshes@), counted_wire(self.images@), s);
        lemma_prefix_split(counted_wire(other.meshes@), counted_wire(other.images@), s);
        lemma_counted_prefix_free(self.meshes@, other.meshes@, s);
        let n = counted_wire(self.meshes@).len() as int;
        assert(counted_wire(self.images@) =~= s.skip(n));
        assert(counted_wire(other.images@) =~= s.skip(n));
        lemma_counted_injective(self.meshes@, other.meshes@);
        lemma_counted_injective(self.images@, other.images@);
    }

    proof fn lemma_wire_nonempty(&self) {
    }

    fn deserialize_in<A: SeqAllocator>(cur: &mut ReadCursor, a: &mut A) -> (r: Result<Scene, DecodeError>) {
        let ghost c0 = *cur;
        let ghost rest = cur.rest();
        let ghost a0 = *a;
        layout_for_type_is_valid::<Mesh>();
        layout_for_type_is_valid::<Image>();
        let meshes = match deserialize_counted::<Mesh, A>(
            cur,
            a,
            core::mem::size_of::<Mesh>() as u64,
            core::mem::align_of::<Mesh>() as u64,
        ) {
            Ok(m) => m,
            Err(e) => {
                assert forall|v: Scene| (#[trigger] v.wire()).is_prefix_of(rest) implies (e is Alloc
                    && reserve_all(a0, v.requests()) is None) by {
                    lemma_prefix_split(counted_wire(v.meshes@), counted_wire(v.images@), rest);
                    lemma_reserve_all_append(
                        a0,
                        counted_requests(v.meshes@, size_of::<Mesh>(), align_of::<Mesh>()),
                        counted_requests(v.images@, size_of::<Image>(), align_of::<Image>()),
                    );
                }
                return Err(e);
            },
        };
        let ghost c1 = *cur;
        let ghost a1 = *a;
        proof {
            lemma_rest_advance(c0, c1, counted_wire(meshes@).len());
        }
        let images = match deserialize_counted::<Image, A>(
            cur,
            a,
            core::mem::size_of::<Image>() as u64,
            core::mem::align_of::<Image>() as u64,
        ) {
            Ok(i) => i,
            Err(e) => {
                assert forall|v: Scene| (#[trigger] v.wire()).is_prefix_of(rest) implies (e is Alloc
                    && reserve_all(a0, v.requests()) is None) by {
                    lemma_prefix_split(counted_wire(v.meshes@), counted_wire(v.images@), rest);
                    lemma_counted_prefix_free(meshes@, v.meshes@, rest);
                    lemma_reserve_all_append(
                        a0,
                        counted_requests(v.meshes@, size_of::<Mesh>(), align_of::<Mesh>()),
                        counted_requests(v.images@, size_of::<Image>(), align_of::<Image>()),
                    );
                }
                return Err(e);
            },
        };
        let s = Scene { meshes, images };
        proof {
            lemma_rest_advance(c1, *cur, counted_wire(images@).len());
            lemma_prefix_split(counted_wire(meshes@), counted_wire(images@), rest);
            lemma_reserve_all_append(
                a0,
                counted_requests(meshes@, size_of::<Mesh>(), align_of::<Mesh>()),
                counted_requests(images@, size_of::<Image>(), align_of::<Image>()),
            );
        }
        Ok(s)
    }
}

/// Decoding gives back what was encoded: two scenes with the same
/// encoding are equal field for field.
pub proof fn lemma_scene_round_trip(s: Scene, t: Scene)
    requires
        s.wire().len() <= usize::MAX,
        t.wire() == s.wire(),
    ensures
        t@ == s@,
{
    s.lemma_wire_injective(&t);
}

impl Scene {
    /// The scene buffer of this scene.
    pub fn encode(&self) -> (r: Vec<u8>)
        requires
            self.wire().len() <= usize::MAX,
        ensures
            r@ == self.wire(),
    {
        self.serialize()
    }

    /// Decodes a whole scene buffer, taking the memory of every sequence
    /// from `a`. Trailing bytes after the scene are a format error.
    pub fn decode_in<A: SeqAllocator>(buf: &[u8], a: &mut A) -> (r: Result<Scene, DecodeError>)
        requires
            old(a).wf(),
        ensures
            final(a).wf(),
            match r {
                Ok(s) => s.wire() == buf@ && reserve_all(*old(a), s.requests()) == Some(*final(a)),
                Err(DecodeError::Format) => forall|t: Scene| #[trigger] t.wire() != buf@,
                Err(DecodeError::Alloc(_)) => forall|t: Scene| #[trigger] t.wire() == buf@
                    ==> reserve_all(*old(a), t.requests()) is None,
            },
            forall|t: Scene| #[trigger] t.wire() == buf@ && reserve_all(*old(a), t.requests()) is Some
                ==> r is Ok && r.unwrap()@ == t@,
    {
        let mut cur = ReadCursor::new(buf);
        let r = Scene::deserialize_in(&mut cur, a);
        match r {
            Ok(s) => {
                if cur.remaining() != 0 {
                    assert forall|t: Scene| #[trigger] t.wire() != buf@ by {
                        if t.wire() == buf@ {
                            s.lemma_prefix_free(&t, buf@);
                        }
                    }
                    return Err(DecodeError::Format);
                }
                assert(s.wire() =~= buf@);
                assert forall|t: Scene| #[trigger] t.wire() == buf@ implies s@ == t@ by {
                    s.lemma_wire_injective(&t);
                }
                Ok(s)
            },
            Err(e) => {
                assert forall|t: Scene| #[trigger] t.wire() == buf@ implies t.wire().is_prefix_of(
                    buf@,
                ) by {}
                Err(e)
            },
        }
    }

    /// Decodes a whole scene buffer with the general heap.
    pub fn decode(buf: &[u8]) -> (r: Result<Scene, DecodeError>)
        ensures
            r is Ok ==> r.unwrap().wire() == buf@,
            r is Err ==> forall|t: Scene| #[trigger] t.wire() != buf@,
            forall|t: Scene| #[trigger] t.wire() == buf@ ==> r is Ok && r.unwrap()@ == t@,
    {
        let mut heap = HeapAllocator;
        let r = Scene::decode_in(buf, &mut heap);
        proof {
            assert forall|t: Scene| #[trigger] t.wire() == buf@ implies reserve_all(
                HeapAllocator,
                t.requests(),
            ) is Some by {
                lemma_heap_grants_all(t.requests());
            }
        }
        match r {
            Ok(s) => Ok(s),
            Err(_) => Err(DecodeError::Format),
        }
    }
}

} // verus!
