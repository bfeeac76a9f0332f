use vstd::prelude::*;

verus! {

/// The shader stages a binding is visible to.
#[derive(Clone, Copy, Debug, PartialEq, Eq, Structural)]
pub struct ShaderStage {
    pub vertex: bool,
    pub fragment: bool,
}

/// What kind of resource a binding holds.
#[derive(Clone, Copy, Debug, PartialEq, Eq, Structural)]
pub enum BindingType {
    UniformBuffer { dynamic: bool, min_binding_size: Option<u64> },
    StorageBuffer { dynamic: bool, min_binding_size: Option<u64>, readonly: bool },
    SampledTexture { multisampled: bool },
    Sampler { comparison: bool },
}

/// One entry of a bind group layout, before it is numbered.
#[derive(Clone, Copy, Debug, PartialEq, Eq, Structural)]
pub struct PreBindGroupLayoutEntry {
    pub visibility: ShaderStage,
    pub ty: BindingType,
    pub count: Option<u32>,
}

/// Seen by the fragment stage only.
pub open spec fn fragment_only() -> ShaderStage {
    ShaderStage { vertex: false, fragment: true }
}

/// A uniform buffer entry, not dynamic, of any size.
pub open spec fn uniform_entry(visibility: ShaderStage) -> PreBindGroupLayoutEntry {
    PreBindGroupLayoutEntry {
        visibility,
        ty: BindingType::UniformBuffer { dynamic: false, min_binding_size: None },
        count: None,
    }
}

/// The entry of the face boundary: a read-only storage buffer for the fragment stage.
pub open spec fn boundary_entry_spec() -> PreBindGroupLayoutEntry {
    PreBindGroupLayoutEntry {
        visibility: fragment_only(),
        ty: BindingType::StorageBuffer { dynamic: false, min_binding_size: None, readonly: true },
        count: None,
    }
}

/// The entry of the matrix, the material, the texture view and the sampler of an instance.
pub open spec fn matrix_entry_spec() -> PreBindGroupLayoutEntry {
    uniform_entry(ShaderStage { vertex: true, fragment: true })
}

pub open spec fn material_entry_spec() -> PreBindGroupLayoutEntry {
    uniform_entry(fragment_only())
}

pub open spec fn textureview_entry_spec() -> PreBindGroupLayoutEntry {
    PreBindGroupLayoutEntry {
        visibility: fragment_only(),
        ty: BindingType::SampledTexture { multisampled: false },
        count: None,
    }
}

pub open spec fn sampler_entry_spec() -> PreBindGroupLayoutEntry {
    PreBindGroupLayoutEntry {
        visibility: fragment_only(),
        ty: BindingType::Sampler { comparison: false },
        count: None,
    }
}

/// The layout of a face's bind group: matrix, material, then (when textured) texture view and
/// sampler, then the boundary segments and their count.
pub open spec fn layout_spec(textured: bool) -> Seq<PreBindGroupLayoutEntry> {
    if textured {
        seq![
            matrix_entry_spec(),
            material_entry_spec(),
            textureview_entry_spec(),
            sampler_entry_spec(),
            boundary_entry_spec(),
            uniform_entry(fragment_only()),
        ]
    } else {
        seq![
            matrix_entry_spec(),
            material_entry_spec(),
            boundary_entry_spec(),
            uniform_entry(fragment_only()),
        ]
    }
}

/// The entry of the boundary segment buffer.
pub fn boundary_bgl_entry() -> (r: PreBindGroupLayoutEntry)
    ensures
        r == boundary_entry_spec(),
{
    PreBindGroupLayoutEntry {
        visibility: ShaderStage { vertex: false, fragment: true },
        ty: BindingType::StorageBuffer { dynamic: false, min_binding_size: None, readonly: true },
        count: None,
    }
}

/// The entry of the uniform that holds the number of boundary segments.
pub fn boundary_length_bgl_entry() -> (r: PreBindGroupLayoutEntry)
    ensures
        r == uniform_entry(fragment_only()),
{
    PreBindGroupLayoutEntry {
        visibility: ShaderStage { vertex: false, fragment: true },
        ty: BindingType::UniformBuffer { dynamic: false, min_binding_size: None },
        count: None,
    }
}

/// The layout entries of a face without texture.
pub fn non_textured_bdl() -> (r: Vec<PreBindGroupLayoutEntry>)
    ensures
        r@ == layout_spec(false),
{
    let mut r: Vec<PreBindGroupLayoutEntry> = Vec::new();
    r.push(InstanceDescriptor::matrix_bgl_entry());
    r.push(InstanceDescriptor::material_bgl_entry());
    r.push(boundary_bgl_entry());
    r.push(boundary_length_bgl_entry());
    assert(r@ =~= layout_spec(false));
    r
}

/// The layout entries of a textured face.
pub fn textured_bdl() -> (r: Vec<PreBindGroupLayoutEntry>)
    ensures
        r@ == layout_spec(true),
{
    let mut r: Vec<PreBindGroupLayoutEntry> = Vec::new();
    r.push(InstanceDescriptor::matrix_bgl_entry());
    r.push(InstanceDescriptor::material_bgl_entry());
    r.push(InstanceDescriptor::textureview_bgl_entry());
    r.push(InstanceDescriptor::sampler_bgl_entry());
    r.push(boundary_bgl_entry());
    r.push(boundary_length_bgl_entry());
    assert(r@ =~= layout_spec(true));
    r
}

/// The layout entries of a face, with or without texture.
pub fn bind_group_layout(textured: bool) -> (r: Vec<PreBindGroupLayoutEntry>)
    ensures
        r@ == layout_spec(textured),
{
    if textured {
        textured_bdl()
    } else {
        non_textured_bdl()
    }
}

/// How an instance is drawn. The texture, when there is one, is named by the renderer's handle.
#[derive(Clone, Copy, Debug, PartialEq, Eq, Structural)]
pub struct InstanceDescriptor {
    pub texture: Option<u64>,
}

impl InstanceDescriptor {
    /// The entry of the model matrix, seen by both stages.
    pub fn matrix_bgl_entry() -> (r: PreBindGroupLayoutEntry)
        ensures
            r == matrix_entry_spec(),
    {
        PreBindGroupLayoutEntry {
            visibility: ShaderStage { vertex: true, fragment: true },
            ty: BindingType::UniformBuffer { dynamic: false, min_binding_size: None },
            count: None,
        }
    }

    /// The entry of the material.
    pub fn material_bgl_entry() -> (r: PreBindGroupLayoutEntry)
        ensures
            r == material_entry_spec(),
    {
        PreBindGroupLayoutEntry {
            visibility: ShaderStage { vertex: false, fragment: true },
            ty: BindingType::UniformBuffer { dynamic: false, min_binding_size: None },
            count: None,
        }
    }

    /// The entry of the texture view.
    pub fn textureview_bgl_entry() -> (r: PreBindGroupLayoutEntry)
        ensures
            r == textureview_entry_spec(),
    {
        PreBindGroupLayoutEntry {
            visibility: ShaderStage { vertex: false, fragment: true },
            ty: BindingType::SampledTexture { multisampled: false },
            count: None,
        }
    }

    /// The entry of the sampler.
    pub fn sampler_bgl_entry() -> (r: PreBindGroupLayoutEntry)
        ensures
            r == sampler_entry_spec(),
    {
        PreBindGroupLayoutEntry {
            visibility: ShaderStage { vertex: false, fragment: true },
            ty: BindingType::Sampler { comparison: false },
            count: None,
        }
    }
}


/// A shader module: one of the three compiled into the renderer, or one the application
/// registered under a handle.
#[derive(Clone, Copy, Debug, PartialEq, Eq, Structural)]
pub enum ShaderModuleSource {
    /// `shaders/polygon.vert.spv`
    PolygonVertex,
    /// `shaders/face.frag.spv`
    FaceFragment,
    /// `shaders/textured-face.frag.spv`
    TexturedFaceFragment,
    Custom(u64),
}

impl ShaderModuleSource {
    /// The SPIR-V file a built-in shader is compiled from, `None` for a custom one.
    pub fn spirv_file(&self) -> (r: Option<&'static str>)
        ensures
            r is None <==> self is Custom,
    {
        match self {
            ShaderModuleSource::PolygonVertex => Some("shaders/polygon.vert.spv"),
            ShaderModuleSource::FaceFragment => Some("shaders/face.frag.spv"),
            ShaderModuleSource::TexturedFaceFragment => Some("shaders/textured-face.frag.spv"),
            ShaderModuleSource::Custom(_) => None,
        }
    }
}

/// What a render pipeline is built from.
#[derive(Clone, Copy, Debug, PartialEq, Eq, Structural)]
pub struct PipelineDescriptor {
    pub vertex_shader: ShaderModuleSource,
    pub fragment_shader: ShaderModuleSource,
    pub sample_count: u32,
    pub textured: bool,
}

/// The identity of a drawn element.
#[derive(Clone, Copy, Debug, PartialEq, Eq, Structural)]
pub struct RenderID {
    pub id: u64,
}

/// Hands out render identities from a counter that only grows.
#[derive(Debug)]
pub struct RenderIDGenerator {
    next: u64,
}

impl RenderIDGenerator {
    /// The identity handed out next.
    pub closed spec fn next_spec(&self) -> u64 {
        self.next
    }

    /// A generator that starts at zero.
    pub fn new() -> (r: RenderIDGenerator)
        ensures
            r.next_spec() == 0,
    {
        RenderIDGenerator { next: 0 }
    }

    /// The identity handed out next.
    pub fn peek(&self) -> (r: u64)
        ensures
            r == self.next_spec(),
    {
        self.next
    }

    /// A new render identity.
    pub fn gen(&mut self) -> (r: RenderID)
        requires
            old(self).next_spec() < u64::MAX,
        ensures
            r.id == old(self).next_spec(),
            final(self).next_spec() == old(self).next_spec() + 1,
    {
        let id = self.next;
        self.next = id + 1;
        RenderID { id }
    }
}

/// One face as drawn: the handle of its buffers (surface mesh and boundary segments) and its
/// render identity.
#[derive(Clone, Copy, Debug, PartialEq, Eq, Structural)]
pub struct FaceInstance {
    pub buffer: u64,
    pub id: RenderID,
}

impl FaceInstance {
    /// Another drawn element on the same buffers, with a new identity: `self`'s identity was
    /// handed out before, so the new one differs from it.
    pub fn clone_instance(&self, ids: &mut RenderIDGenerator) -> (r: FaceInstance)
        requires
            old(ids).next_spec() < u64::MAX,
            self.id.id < old(ids).next_spec(),
        ensures
            r.buffer == self.buffer,
            r.id != self.id,
            r.id.id == old(ids).next_spec(),
            final(ids).next_spec() == old(ids).next_spec() + 1,
    {
        FaceInstance { buffer: self.buffer, id: ids.gen() }
    }
}

/// A face with the descriptor of the shape it belongs to, ready to be drawn.
#[derive(Clone, Copy, Debug, PartialEq, Eq, Structural)]
pub struct RenderFace {
    pub instance: FaceInstance,
    pub desc: InstanceDescriptor,
}

/// What a face's bind group holds, in binding order.
#[derive(Clone, Copy, Debug, PartialEq, Eq, Structural)]
pub enum BindingResource {
    Matrix,
    Material,
    TextureView(u64),
    Sampler(u64),
    /// The boundary segments of the face buffer with this handle.
    Boundary(u64),
    /// The number of boundary segments of the face buffer with this handle.
    BoundaryLength(u64),
}

/// The resources of a face's bind group, in the order of `layout_spec`.
pub open spec fn bind_group_spec(buffer: u64, texture: Option<u64>) -> Seq<BindingResource> {
    match texture {
        Some(t) => seq![
            BindingResource::Matrix,
            BindingResource::Material,
            BindingResource::TextureView(t),
            BindingResource::Sampler(t),
            BindingResource::Boundary(buffer),
            BindingResource::BoundaryLength(buffer),
        ],
        None => seq![
            BindingResource::Matrix,
            BindingResource::Material,
            BindingResource::Boundary(buffer),
            BindingResource::BoundaryLength(buffer),
        ],
    }
}

impl RenderFace {
    /// The vertex shader used by default.
    pub fn default_vertex_shader() -> (r: ShaderModuleSource)
        ensures
            r == ShaderModuleSource::PolygonVertex,
    {
        ShaderModuleSource::PolygonVertex
    }

    /// The fragment shader used by default for faces without texture.
    pub fn default_fragment_shader() -> (r: ShaderModuleSource)
        ensures
            r == ShaderModuleSource::FaceFragment,
    {
        ShaderModuleSource::FaceFragment
    }

    /// The fragment shader used by default for textured faces.
    pub fn default_textured_fragment_shader() -> (r: ShaderModuleSource)
        ensures
            r == ShaderModuleSource::TexturedFaceFragment,
    {
        ShaderModuleSource::TexturedFaceFragment
    }

    /// The pipeline of this face with the given shaders.
    pub fn pipeline_with_shader(
        &self,
        vertex_shader: ShaderModuleSource,
        fragment_shader: ShaderModuleSource,
        sample_count: u32,
    ) -> (r: PipelineDescriptor)
        ensures
            r == (PipelineDescriptor {
                vertex_shader,
                fragment_shader,
                sample_count,
                textured: self.desc.texture is Some,
            }),
    {
        PipelineDescriptor {
            vertex_shader,
            fragment_shader,
            sample_count,
            textured: self.desc.texture.is_some(),
        }
    }

    /// The pipeline of this face with the default shaders: the textured fragment shader when the
    /// descriptor has a texture.
    pub fn pipeline(&self, sample_count: u32) -> (r: PipelineDescriptor)
        ensures
            r == (PipelineDescriptor {
                vertex_shader: ShaderModuleSource::PolygonVertex,
                fragment_shader: if self.desc.texture is Some {
                    ShaderModuleSource::TexturedFaceFragment
                } else {
                    ShaderModuleSource::FaceFragment
                },
                sample_count,
                textured: self.desc.texture is Some,
            }),
    {
        let fragment_shader = if self.desc.texture.is_some() {
            Self::default_textured_fragment_shader()
        } else {
            Self::default_fragment_shader()
        };
        self.pipeline_with_shader(Self::default_vertex_shader(), fragment_shader, sample_count)
    }

    /// The layout entries of this face's bind group.
    pub fn bind_group_layout(&self) -> (r: Vec<PreBindGroupLayoutEntry>)
        ensures
            r@ == layout_spec(self.desc.texture is Some),
    {
        bind_group_layout(self.desc.texture.is_some())
    }

    /// The resources of this face's bind group.
    pub fn bind_group(&self) -> (r: Vec<BindingResource>)
        ensures
            r@ == bind_group_spec(self.instance.buffer, self.desc.texture),
    {
        let buffer = self.instance.buffer;
        let mut r: Vec<BindingResource> = Vec::new();
        r.push(BindingResource::Matrix);
        r.push(BindingResource::Material);
        match self.desc.texture {
            Some(t) => {
                r.push(BindingResource::TextureView(t));
                r.push(BindingResource::Sampler(t));
            },
            None => {},
        }
        r.push(BindingResource::Boundary(buffer));
        r.push(BindingResource::BoundaryLength(buffer));
        assert(r@ =~= bind_group_spec(buffer, self.desc.texture));
        r
    }
}

/// A shape as drawn: its faces and one descriptor for all of them.
#[derive(Debug)]
pub struct ShapeInstance {
    faces: Vec<FaceInstance>,
    desc: InstanceDescriptor,
}

impl ShapeInstance {
    /// The faces, in order.
    pub closed spec fn faces_spec(&self) -> Seq<FaceInstance> {
        self.faces@
    }

    /// The descriptor.
    pub closed spec fn desc_spec(&self) -> InstanceDescriptor {
        self.desc
    }

    /// Every face identity was handed out before `next`.
    pub open spec fn ids_below(&self, next: u64) -> bool {
        forall|i: int| 0 <= i < self.faces_spec().len() ==> (#[trigger] self.faces_spec()[i]).id.id < next
    }

    /// A shape whose faces are drawn from the given buffers, in order, each with a new identity.
    pub fn new(buffers: &Vec<u64>, desc: InstanceDescriptor, ids: &mut RenderIDGenerator) -> (r:
        ShapeInstance)
        requires
            old(ids).next_spec() + buffers@.len() <= u64::MAX,
        ensures
            r.desc_spec() == desc,
            r.faces_spec().len() == buffers@.len(),
            forall|i: int|
                0 <= i < buffers@.len() ==> #[trigger] r.faces_spec()[i] == (FaceInstance {
                    buffer: buffers@[i],
                    id: RenderID { id: (old(ids).next_spec() + i) as u64 },
                }),
            final(ids).next_spec() == old(ids).next_spec() + buffers@.len(),
            r.ids_below(final(ids).next_spec()),
    {
        let mut faces: Vec<FaceInstance> = Vec::new();
        let mut i: usize = 0;
        while i < buffers.len()
            invariant
                i <= buffers@.len(),
                ids.next_spec() == old(ids).next_spec() + i,
                old(ids).next_spec() + buffers@.len() <= u64::MAX,
                faces@.len() == i,
                forall|j: int|
                    0 <= j < i ==> #[trigger] faces@[j] == (FaceInstance {
                        buffer: buffers@[j],
                        id: RenderID { id: (old(ids).next_spec() + j) as u64 },
                    }),
            decreases buffers@.len() - i,
        {
            let id = ids.gen();
            faces.push(FaceInstance { buffer: buffers[i], id });
            i = i + 1;
        }
        ShapeInstance { faces, desc }
    }

    /// Points the faces at new buffers, in order, as far as both lists go; the identities stay.
    pub fn update_buffers(&mut self, buffers: &Vec<u64>)
        ensures
            final(self).desc_spec() == old(self).desc_spec(),
            final(self).faces_spec().len() == old(self).faces_spec().len(),
            forall|i: int|
                0 <= i < old(self).faces_spec().len() ==> #[trigger] final(self).faces_spec()[i]
                    == if i < buffers@.len() {
                    FaceInstance { buffer: buffers@[i], id: old(self).faces_spec()[i].id }
                } else {
                    old(self).faces_spec()[i]
                },
    {
        let mut i: usize = 0;
        while i < self.faces.len() && i < buffers.len()
            invariant
                i <= old(self).faces@.len(),
                i <= buffers@.len(),
                self.desc == old(self).desc,
                self.faces@.len() == old(self).faces@.len(),
                forall|j: int|
                    0 <= j < old(self).faces@.len() ==> #[trigger] self.faces@[j] == if j < i {
                        FaceInstance { buffer: buffers@[j], id: old(self).faces@[j].id }
                    } else {
                        old(self).faces@[j]
                    },
            decreases old(self).faces@.len() - i,
        {
            let id = self.faces[i].id;
            self.faces.set(i, FaceInstance { buffer: buffers[i], id });
            i = i + 1;
        }
    }

    /// Another drawn shape on the same buffers and descriptor, each face with a new identity,
    /// different from every identity of `self`, which were handed out before.
    pub fn clone_instance(&self, ids: &mut RenderIDGenerator) -> (r: ShapeInstance)
        requires
            old(ids).next_spec() + self.faces_spec().len() <= u64::MAX,
            self.ids_below(old(ids).next_spec()),
        ensures
            forall|i: int, j: int|
                0 <= i < self.faces_spec().len() && 0 <= j < self.faces_spec().len() ==> (
                #[trigger] r.faces_spec()[i]).id != (#[trigger] self.faces_spec()[j]).id,
            r.ids_below(final(ids).next_spec()),
            r.desc_spec() == self.desc_spec(),
            r.faces_spec().len() == self.faces_spec().len(),
            forall|i: int|
                0 <= i < self.faces_spec().len() ==> #[trigger] r.faces_spec()[i] == (FaceInstance {
                    buffer: self.faces_spec()[i].buffer,
                    id: RenderID { id: (old(ids).next_spec() + i) as u64 },
                }),
            final(ids).next_spec() == old(ids).next_spec() + self.faces_spec().len(),
    {
        let mut faces: Vec<FaceInstance> = Vec::new();
        let mut i: usize = 0;
        while i < self.faces.len()
            invariant
                i <= self.faces@.len(),
                ids.next_spec() == old(ids).next_spec() + i,
                old(ids).next_spec() + self.faces@.len() <= u64::MAX,
                forall|j: int| 0 <= j < self.faces@.len() ==> (#[trigger] self.faces@[j]).id.id
                    < old(ids).next_spec(),
                faces@.len() == i,
                forall|j: int|
                    0 <= j < i ==> #[trigger] faces@[j] == (FaceInstance {
                        buffer: self.faces@[j].buffer,
                        id: RenderID { id: (old(ids).next_spec() + j) as u64 },
                    }),
            decreases self.faces@.len() - i,
        {
            faces.push(self.faces[i].clone_instance(ids));
            i = i + 1;
        }
        ShapeInstance { faces, desc: self.desc }
    }

    /// The descriptor.
    pub fn descriptor(&self) -> (r: &InstanceDescriptor)
        ensures
            *r == self.desc_spec(),
    {
        &self.desc
    }

    /// The descriptor, to be changed in place; the faces stay.
    pub fn descriptor_mut(&mut self) -> (r: &mut InstanceDescriptor)
        ensures
            *r == old(self).desc_spec(),
            final(self).desc_spec() == *final(r),
            final(self).faces_spec() == old(self).faces_spec(),
    {
        &mut self.desc
    }

    /// The faces to draw, each with the shape's descriptor.
    pub fn render_faces(&self) -> (r: Vec<RenderFace>)
        ensures
            r@.len() == self.faces_spec().len(),
            forall|i: int|
                0 <= i < r@.len() ==> #[trigger] r@[i] == (RenderFace {
                    instance: self.faces_spec()[i],
                    desc: self.desc_spec(),
                }),
    {
        let mut r: Vec<RenderFace> = Vec::new();
        let mut i: usize = 0;
        while i < self.faces.len()
            invariant
                i <= self.faces@.len(),
                r@.len() == i,
                forall|j: int|
                    0 <= j < i ==> #[trigger] r@[j] == (RenderFace {
                        instance: self.faces@[j],
                        desc: self.desc,
                    }),
            decreases self.faces@.len() - i,
        {
            r.push(RenderFace { instance: self.faces[i], desc: self.desc });
            i = i + 1;
        }
        r
    }
}


/// The segments of a polyline in parameter space: each point with the next one, as
/// `(u0, v0, u1, v1)`.
pub open spec fn polyline_segments<T>(p: Seq<(T, T)>) -> Seq<(T, T, T, T)> {
    Seq::new(
        if p.len() == 0 { 0 } else { (p.len() - 1) as nat },
        |i: int| (p[i].0, p[i].1, p[i + 1].0, p[i + 1].1),
    )
}

/// The segments of all the polylines, one polyline after the other.
pub open spec fn boundary_segments_spec<T>(ps: Seq<Seq<(T, T)>>) -> Seq<(T, T, T, T)>
    decreases ps.len(),
{
    if ps.len() == 0 {
        Seq::empty()
    } else {
        boundary_segments_spec(ps.drop_last()) + polyline_segments(ps.last())
    }
}

/// The views of the polylines.
pub open spec fn polylines_view<T>(ps: Seq<Vec<(T, T)>>) -> Seq<Seq<(T, T)>> {
    ps.map_values(|p: Vec<(T, T)>| p@)
}

/// The boundary segment buffer of a face, from the parameter-space polyline of each boundary
/// edge in the face's boundary order: consecutive points of each polyline make one segment, and
/// no segment joins two polylines.
pub fn boundary_segments<T: Copy>(polylines: &Vec<Vec<(T, T)>>) -> (r: Vec<(T, T, T, T)>)
    ensures
        r@ == boundary_segments_spec(polylines_view(polylines@)),
{
    let mut r: Vec<(T, T, T, T)> = Vec::new();
    let mut k: usize = 0;
    while k < polylines.len()
        invariant
            k <= polylines@.len(),
            r@ == boundary_segments_spec(polylines_view(polylines@.subrange(0, k as int))),
        decreases polylines@.len() - k,
    {
        let ghost before = r@;
        let p = &polylines[k];
        let mut i: usize = 1;
        while i < p.len()
            invariant
                1 <= i,
                i <= p@.len() || i == 1,
                r@ == before + polyline_segments(p@).subrange(0, i - 1),
            decreases p@.len() - i,
        {
            r.push((p[i - 1].0, p[i - 1].1, p[i].0, p[i].1));
            i = i + 1;
            assert(r@ =~= before + polyline_segments(p@).subrange(0, i - 1));
        }
        proof {
            let ps = polylines_view(polylines@.subrange(0, k + 1));
            assert(ps.drop_last() =~= polylines_view(polylines@.subrange(0, k as int)));
            assert(ps.last() == p@);
            if p@.len() == 0 {
                assert(polyline_segments(p@) =~= Seq::<(T, T, T, T)>::empty());
                assert(polyline_segments(p@).subrange(0, i - 1) =~= Seq::<(T, T, T, T)>::empty());
            } else {
                assert(polyline_segments(p@).subrange(0, i - 1) =~= polyline_segments(p@));
            }
            assert(r@ =~= before + polyline_segments(p@));
            assert(boundary_segments_spec(ps) == boundary_segments_spec(ps.drop_last())
                + polyline_segments(ps.last()));
        }
        k = k + 1;
    }
    assert(polylines@.subrange(0, polylines@.len() as int) =~= polylines@);
    r
}

/// The number of boundary segments, as the uniform that holds it.
pub fn boundary_length<T>(segments: &Vec<(T, T, T, T)>) -> (r: u32)
    requires
        segments@.len() <= u32::MAX,
    ensures
        r == segments@.len(),
{
    segments.len() as u32
}

} // verus!
