use truck_shape::shaperend::{
    bind_group_layout, boundary_bgl_entry, boundary_length, boundary_length_bgl_entry,
    boundary_segments, non_textured_bdl, textured_bdl, BindingResource, BindingType,
    FaceInstance, InstanceDescriptor, PreBindGroupLayoutEntry, RenderFace, RenderID,
    RenderIDGenerator, ShaderModuleSource, ShaderStage, ShapeInstance,
};

const FRAGMENT: ShaderStage = ShaderStage { vertex: false, fragment: true };

#[test]
fn boundary_entries() {
    assert_eq!(
        boundary_bgl_entry(),
        PreBindGroupLayoutEntry {
            visibility: FRAGMENT,
            ty: BindingType::StorageBuffer { dynamic: false, min_binding_size: None, readonly: true },
            count: None,
        }
    );
    assert_eq!(
        boundary_length_bgl_entry(),
        PreBindGroupLayoutEntry {
            visibility: FRAGMENT,
            ty: BindingType::UniformBuffer { dynamic: false, min_binding_size: None },
            count: None,
        }
    );
}

#[test]
fn layouts_with_and_without_texture() {
    let plain = bind_group_layout(false);
    assert_eq!(plain, non_textured_bdl());
    assert_eq!(plain.len(), 4);
    assert_eq!(plain[0], InstanceDescriptor::matrix_bgl_entry());
    assert_eq!(plain[0].visibility, ShaderStage { vertex: true, fragment: true });
    assert_eq!(plain[1], InstanceDescriptor::material_bgl_entry());
    assert_eq!(plain[2], boundary_bgl_entry());
    assert_eq!(plain[3], boundary_length_bgl_entry());
    let textured = bind_group_layout(true);
    assert_eq!(textured, textured_bdl());
    assert_eq!(textured.len(), 6);
    assert_eq!(textured[2], InstanceDescriptor::textureview_bgl_entry());
    assert_eq!(textured[3], InstanceDescriptor::sampler_bgl_entry());
    assert_eq!(textured[3].ty, BindingType::Sampler { comparison: false });
    assert_eq!(textured[4], boundary_bgl_entry());
    assert_eq!(textured[5], boundary_length_bgl_entry());
}

#[test]
fn default_shaders_and_pipelines() {
    assert_eq!(RenderFace::default_vertex_shader(), ShaderModuleSource::PolygonVertex);
    assert_eq!(RenderFace::default_fragment_shader(), ShaderModuleSource::FaceFragment);
    assert_eq!(
        RenderFace::default_textured_fragment_shader(),
        ShaderModuleSource::TexturedFaceFragment
    );
    assert_eq!(
        ShaderModuleSource::TexturedFaceFragment.spirv_file(),
        Some("shaders/textured-face.frag.spv")
    );
    assert_eq!(ShaderModuleSource::Custom(3).spirv_file(), None);
    let instance = FaceInstance { buffer: 7, id: RenderID { id: 1 } };
    let plain = RenderFace { instance, desc: InstanceDescriptor { texture: None } };
    let p = plain.pipeline(4);
    assert_eq!(p.vertex_shader, ShaderModuleSource::PolygonVertex);
    assert_eq!(p.fragment_shader, ShaderModuleSource::FaceFragment);
    assert_eq!(p.sample_count, 4);
    assert!(!p.textured);
    let textured = RenderFace { instance, desc: InstanceDescriptor { texture: Some(2) } };
    let p = textured.pipeline(1);
    assert_eq!(p.fragment_shader, ShaderModuleSource::TexturedFaceFragment);
    assert!(p.textured);
    let custom = textured.pipeline_with_shader(
        ShaderModuleSource::Custom(10),
        ShaderModuleSource::Custom(11),
        8,
    );
    assert_eq!(custom.vertex_shader, ShaderModuleSource::Custom(10));
    assert_eq!(custom.fragment_shader, ShaderModuleSource::Custom(11));
    assert_eq!(custom.sample_count, 8);
}

#[test]
fn bind_groups_follow_the_layout() {
    let instance = FaceInstance { buffer: 7, id: RenderID { id: 1 } };
    let plain = RenderFace { instance, desc: InstanceDescriptor { texture: None } };
    assert_eq!(
        plain.bind_group(),
        vec![
            BindingResource::Matrix,
            BindingResource::Material,
            BindingResource::Boundary(7),
            BindingResource::BoundaryLength(7)
        ]
    );
    assert_eq!(plain.bind_group_layout(), bind_group_layout(false));
    let textured = RenderFace { instance, desc: InstanceDescriptor { texture: Some(5) } };
    assert_eq!(
        textured.bind_group(),
        vec![
            BindingResource::Matrix,
            BindingResource::Material,
            BindingResource::TextureView(5),
            BindingResource::Sampler(5),
            BindingResource::Boundary(7),
            BindingResource::BoundaryLength(7)
        ]
    );
    assert_eq!(textured.bind_group_layout(), bind_group_layout(true));
}

#[test]
fn shape_instance_clone_and_faces() {
    let mut ids = RenderIDGenerator::new();
    let desc = InstanceDescriptor { texture: None };
    let shape = ShapeInstance::new(&vec![10, 11, 12], desc, &mut ids);
    let faces = shape.render_faces();
    assert_eq!(faces.len(), 3);
    for (i, f) in faces.iter().enumerate() {
        assert_eq!(f.instance.buffer, 10 + i as u64);
        assert_eq!(f.instance.id, RenderID { id: i as u64 });
        assert_eq!(f.desc, desc);
    }
    let copy = shape.clone_instance(&mut ids);
    let cf = copy.render_faces();
    for i in 0..3 {
        assert_eq!(cf[i].instance.buffer, faces[i].instance.buffer);
        assert_eq!(cf[i].instance.id, RenderID { id: 3 + i as u64 });
    }
    assert_eq!(*copy.descriptor(), desc);
    let single = faces[0].instance.clone_instance(&mut ids);
    assert_eq!(single.buffer, 10);
    assert_eq!(single.id, RenderID { id: 6 });
    assert_eq!(ids.gen(), RenderID { id: 7 });
}

#[test]
fn descriptor_mut_changes_all_faces() {
    let mut ids = RenderIDGenerator::new();
    let mut shape = ShapeInstance::new(&vec![1, 2], InstanceDescriptor { texture: None }, &mut ids);
    shape.descriptor_mut().texture = Some(9);
    assert_eq!(shape.descriptor().texture, Some(9));
    for f in shape.render_faces() {
        assert_eq!(f.desc.texture, Some(9));
        assert_eq!(f.pipeline(1).fragment_shader, ShaderModuleSource::TexturedFaceFragment);
    }
}

#[test]
fn update_buffers_keeps_identities() {
    let mut ids = RenderIDGenerator::new();
    let mut shape =
        ShapeInstance::new(&vec![1, 2, 3], InstanceDescriptor { texture: None }, &mut ids);
    shape.update_buffers(&vec![20, 21]);
    let faces = shape.render_faces();
    assert_eq!(faces[0].instance, FaceInstance { buffer: 20, id: RenderID { id: 0 } });
    assert_eq!(faces[1].instance, FaceInstance { buffer: 21, id: RenderID { id: 1 } });
    assert_eq!(faces[2].instance, FaceInstance { buffer: 3, id: RenderID { id: 2 } });
}

#[test]
fn boundary_segments_join_consecutive_points() {
    let edge0: Vec<(f32, f32)> = vec![(0.0, 0.0), (0.5, 0.0), (1.0, 0.0)];
    let edge1: Vec<(f32, f32)> = vec![(1.0, 0.0), (1.0, 1.0)];
    let lone: Vec<(f32, f32)> = vec![(0.3, 0.3)];
    let empty: Vec<(f32, f32)> = Vec::new();
    let segments = boundary_segments(&vec![edge0, lone, edge1, empty]);
    assert_eq!(
        segments,
        vec![(0.0, 0.0, 0.5, 0.0), (0.5, 0.0, 1.0, 0.0), (1.0, 0.0, 1.0, 1.0)]
    );
    assert_eq!(boundary_length(&segments), 3);
    let none: Vec<Vec<(f32, f32)>> = Vec::new();
    assert!(boundary_segments(&none).is_empty());
}
