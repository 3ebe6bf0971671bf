use scene::allocator::{AllocError, FixedBaseAllocator};
use scene::asset::{load_scene_from_file, load_scene_from_file_with_allocator};
use scene::bytes::ReadCursor;
use scene::chunk::{chunked_size, compress, decompress, decompress_into};
use scene::codec::{DecodeError, Deserialize, Serialize};
use scene::math::{Mat4, Vec2, Vec3, Vec4, F32_ONE, F32_ZERO};
use scene::scene::{Format, Image, Material, MaterialParameter, Mesh, Scene};
use scene::stats::material_stats;

fn f(x: f32) -> u32 {
    x.to_bits()
}

fn v3(x: f32, y: f32, z: f32) -> Vec3 {
    Vec3::new(f(x), f(y), f(z))
}

fn absent_material() -> Material {
    Material {
        base_color: MaterialParameter::Absent,
        normal: MaterialParameter::Absent,
        specular: MaterialParameter::Absent,
        emissive: MaterialParameter::Absent,
    }
}

fn triangle_mesh() -> Mesh {
    Mesh {
        positions: vec![v3(0.0, 0.0, 0.0), v3(1.0, 0.0, 0.0), v3(0.0, 1.0, 0.0)],
        normals: vec![v3(0.0, 0.0, 1.0); 3],
        tangents: vec![v3(1.0, 0.0, 0.0); 3],
        uvs: vec![Vec2::new(f(0.0), f(0.0)), Vec2::new(f(1.0), f(0.0)), Vec2::new(f(0.0), f(1.0))],
        indices: vec![0, 1, 2],
        transform: Mat4::identity(),
        material: Material {
            base_color: MaterialParameter::Vec4(Vec4::new(f(1.0), f(0.0), f(1.0), f(1.0))),
            normal: MaterialParameter::Absent,
            specular: MaterialParameter::Absent,
            emissive: MaterialParameter::Absent,
        },
    }
}

fn triangle_scene() -> Scene {
    Scene { meshes: vec![triangle_mesh()], images: Vec::new() }
}

fn rich_scene() -> Scene {
    let empty_mesh = Mesh {
        positions: Vec::new(),
        normals: Vec::new(),
        tangents: Vec::new(),
        uvs: Vec::new(),
        indices: Vec::new(),
        transform: Mat4::translation(v3(1.0, 2.0, 3.0)),
        material: Material {
            base_color: MaterialParameter::Texture(1),
            normal: MaterialParameter::Vec2(Vec2::new(f(0.5), f(-0.5))),
            specular: MaterialParameter::Vec3(v3(0.25, 0.5, 0.75)),
            emissive: MaterialParameter::Vec4(Vec4::new(f(1.0), f(2.0), f(3.0), f(4.0))),
        },
    };
    let images = vec![
        Image { width: 1, height: 1, format: Format::RGBA8, data: vec![1, 2, 3, 4] },
        Image { width: 2, height: 1, format: Format::SRGBA8, data: vec![9, 8, 7, 6, 5, 4, 3, 2] },
    ];
    Scene { meshes: vec![triangle_mesh(), empty_mesh], images }
}

fn file_of(s: &Scene) -> Vec<u8> {
    compress(&s.encode())
}

#[test]
fn triangle_scene_round_trips_through_file() {
    let file = file_of(&triangle_scene());
    let loaded = load_scene_from_file(&file).unwrap();
    assert_eq!(loaded, triangle_scene());
    assert_eq!(loaded.meshes.len(), 1);
    assert!(loaded.images.is_empty());
    assert_eq!(loaded.meshes[0].positions[1], v3(1.0, 0.0, 0.0));
    assert_eq!(loaded.meshes[0].indices, vec![0, 1, 2]);
    assert_eq!(
        loaded.meshes[0].material.base_color,
        MaterialParameter::Vec4(Vec4::new(f(1.0), f(0.0), f(1.0), f(1.0)))
    );
}

#[test]
fn rich_scene_round_trips_with_heap() {
    let s = rich_scene();
    let decoded = Scene::decode(&s.encode()).unwrap();
    assert_eq!(decoded, s);
}

#[test]
fn empty_scene_round_trips() {
    let s = Scene::new();
    let buf = s.encode();
    assert_eq!(buf, vec![0u8; 16]);
    assert_eq!(Scene::decode(&buf).unwrap(), s);
    let file = compress(&buf);
    assert_eq!(load_scene_from_file(&file).unwrap(), s);
}

#[test]
fn rich_scene_round_trips_with_arena() {
    let s = rich_scene();
    let file = file_of(&s);
    let region = vec![0u8; 1 << 16];
    let mut arena = FixedBaseAllocator::new();
    arena.init(region.as_ptr() as u64, region.len() as u64);
    let loaded = load_scene_from_file_with_allocator(&file, &mut arena).unwrap();
    assert_eq!(loaded, s);
    assert!(arena.used() >= s.encode().len() as u64);
    assert!(arena.used() <= arena.capacity());
}

#[test]
fn arena_too_small_for_scene_fails() {
    let file = file_of(&rich_scene());
    let mut arena = FixedBaseAllocator::new();
    arena.init(0x1000, 16);
    let r = load_scene_from_file_with_allocator(&file, &mut arena);
    assert_eq!(r.unwrap_err(), DecodeError::Alloc(AllocError::OutOfMemory));
}

#[test]
fn arena_without_region_fails() {
    let file = file_of(&triangle_scene());
    let mut arena = FixedBaseAllocator::new();
    let r = load_scene_from_file_with_allocator(&file, &mut arena);
    assert_eq!(r.unwrap_err(), DecodeError::Alloc(AllocError::NoRegion));
}

#[test]
fn scene_new_in_is_empty() {
    let arena = FixedBaseAllocator::new();
    let s = Scene::new_in(&arena);
    assert!(s.meshes.is_empty() && s.images.is_empty());
    assert_eq!(arena.used(), 0);
}

#[test]
fn truncated_file_is_a_format_error() {
    let file = file_of(&triangle_scene());
    let cut = &file[..file.len() - 1];
    assert_eq!(load_scene_from_file(cut).unwrap_err(), DecodeError::Format);
    assert_eq!(decompress(cut).unwrap_err(), DecodeError::Format);
}

#[test]
fn truncated_scene_buffer_is_a_format_error() {
    let buf = triangle_scene().encode();
    assert_eq!(Scene::decode(&buf[..buf.len() - 1]).unwrap_err(), DecodeError::Format);
}

#[test]
fn trailing_bytes_are_a_format_error() {
    let mut buf = triangle_scene().encode();
    buf.push(0);
    assert_eq!(Scene::decode(&buf).unwrap_err(), DecodeError::Format);
}

#[test]
fn sequence_length_not_multiple_of_element_is_rejected() {
    // one mesh whose positions claim 13 bytes: not a whole number of Vec3
    let mut buf = Vec::new();
    buf.extend_from_slice(&1u64.to_le_bytes());
    buf.extend_from_slice(&13u64.to_le_bytes());
    buf.extend_from_slice(&[0u8; 13]);
    buf.extend_from_slice(&[0u8; 200]);
    assert_eq!(Scene::decode(&buf).unwrap_err(), DecodeError::Format);

    let mut seq = Vec::new();
    seq.extend_from_slice(&13u64.to_le_bytes());
    seq.extend_from_slice(&[0u8; 13]);
    let mut cur = ReadCursor::new(&seq);
    assert_eq!(<Vec<Vec3>>::deserialize(&mut cur).unwrap_err(), DecodeError::Format);
}

#[test]
fn sequence_is_byte_length_then_elements() {
    let v: Vec<u32> = vec![1, 0x0102_0304];
    let bytes = v.serialize();
    assert_eq!(bytes, vec![8, 0, 0, 0, 0, 0, 0, 0, 1, 0, 0, 0, 4, 3, 2, 1]);
    let mut cur = ReadCursor::new(&bytes);
    assert_eq!(<Vec<u32>>::deserialize(&mut cur).unwrap(), v);
    assert_eq!(cur.remaining(), 0);
}

#[test]
fn sequence_longer_than_buffer_is_rejected() {
    let mut seq = Vec::new();
    seq.extend_from_slice(&16u64.to_le_bytes());
    seq.extend_from_slice(&[0u8; 8]);
    let mut cur = ReadCursor::new(&seq);
    assert_eq!(<Vec<u32>>::deserialize(&mut cur).unwrap_err(), DecodeError::Format);
}

#[test]
fn material_parameter_wire_layout() {
    assert_eq!(MaterialParameter::Absent.serialize(), vec![0, 0, 0, 0]);
    assert_eq!(MaterialParameter::Texture(7).serialize(), vec![1, 0, 0, 0, 7, 0, 0, 0]);
    assert_eq!(MaterialParameter::Vec2(Vec2::new(1, 2)).serialize().len(), 12);
    assert_eq!(MaterialParameter::Vec3(Vec3::new(1, 2, 3)).serialize().len(), 16);
    let v4 = MaterialParameter::Vec4(Vec4::new(F32_ONE, 0, 0, 0)).serialize();
    assert_eq!(v4, vec![4, 0, 0, 0, 0, 0, 0x80, 0x3F, 0, 0, 0, 0, 0, 0, 0, 0, 0, 0, 0, 0]);
}

#[test]
fn unknown_material_tag_is_rejected() {
    let bytes = vec![5u8, 0, 0, 0, 0, 0, 0, 0];
    let mut cur = ReadCursor::new(&bytes);
    assert_eq!(MaterialParameter::deserialize(&mut cur).unwrap_err(), DecodeError::Format);
}

#[test]
fn material_parameter_round_trips() {
    for p in [
        MaterialParameter::Absent,
        MaterialParameter::Texture(3),
        MaterialParameter::Vec2(Vec2::new(f(0.5), f(1.5))),
        MaterialParameter::Vec3(v3(1.0, 2.0, 3.0)),
        MaterialParameter::Vec4(Vec4::new(1, 2, 3, 4)),
    ] {
        let bytes = p.serialize();
        let mut cur = ReadCursor::new(&bytes);
        assert_eq!(MaterialParameter::deserialize(&mut cur).unwrap(), p);
        assert_eq!(cur.remaining(), 0);
    }
}

#[test]
fn image_format_tags() {
    assert_eq!(Format::RGBA8.tag(), 0);
    assert_eq!(Format::SRGBA8.tag(), 1);
    assert_eq!(Format::from_tag(1), Some(Format::SRGBA8));
    assert_eq!(Format::from_tag(2), None);
    let mut buf = Vec::new();
    buf.extend_from_slice(&0u64.to_le_bytes());
    buf.extend_from_slice(&1u64.to_le_bytes());
    buf.extend_from_slice(&1u32.to_le_bytes());
    buf.extend_from_slice(&1u32.to_le_bytes());
    buf.extend_from_slice(&2u32.to_le_bytes());
    buf.extend_from_slice(&4u64.to_le_bytes());
    buf.extend_from_slice(&[1, 2, 3, 4]);
    assert_eq!(Scene::decode(&buf).unwrap_err(), DecodeError::Format);
    let pos = buf.len() - 16;
    buf[pos] = 1;
    let s = Scene::decode(&buf).unwrap();
    assert_eq!(s.images[0].format, Format::SRGBA8);
    assert_eq!(s.images[0].data, vec![1, 2, 3, 4]);
}

#[test]
fn chunk_round_trip_of_empty_and_small() {
    assert!(compress(&[]).is_empty());
    assert_eq!(decompress(&[]).unwrap(), Vec::<u8>::new());
    let data = b"hello, hello, hello, hello".to_vec();
    let file = compress(&data);
    let c = u32::from_le_bytes([file[0], file[1], file[2], file[3]]) as usize;
    let u = u32::from_le_bytes([file[4], file[5], file[6], file[7]]) as usize;
    assert_eq!(u, data.len());
    assert_eq!(file.len(), 8 + c);
    assert_eq!(decompress(&file).unwrap(), data);
}

#[test]
fn chunk_compression_shrinks_repetitive_data() {
    let data = vec![7u8; 100_000];
    let file = compress(&data);
    assert!(file.len() < 2_000);
    assert_ne!(&file[8..], &data[..]);
    assert_eq!(chunked_size(&file), Some(100_000));
    assert_eq!(decompress(&file).unwrap(), data);
}

#[test]
fn chunk_round_trip_of_varied_data() {
    let data: Vec<u8> = (0..300_000u32).map(|i| (i.wrapping_mul(2_654_435_761) >> 13) as u8).collect();
    let file = compress(&data);
    assert_eq!(decompress(&file).unwrap(), data);
    let mut dest = vec![0u8; data.len()];
    decompress_into(&file, &mut dest).unwrap();
    assert_eq!(dest, data);
}

#[test]
fn decompress_into_wrong_size_fails() {
    let file = compress(b"abcdefgh");
    let mut dest = vec![0u8; 7];
    assert_eq!(decompress_into(&file, &mut dest).unwrap_err(), DecodeError::Format);
}

#[test]
fn corrupted_header_is_rejected() {
    let mut file = compress(b"abcdefgh");
    file[4] = 9;
    assert_eq!(decompress(&file).unwrap_err(), DecodeError::Format);
    assert_eq!(decompress(&[1, 0, 0]).unwrap_err(), DecodeError::Format);
}

#[test]
fn arena_exhaustion_at_exact_size() {
    let mut a = FixedBaseAllocator::new();
    a.init(0x1000, 16);
    assert_eq!(a.allocate(8, 4), Ok(0x1000));
    assert_eq!(a.allocate(8, 4), Ok(0x1008));
    assert_eq!(a.used(), 16);
    assert_eq!(a.allocate(1, 1), Err(AllocError::OutOfMemory));
    assert_eq!(a.allocate(0, 1), Ok(0x1010));
    assert_eq!(a.used(), 16);
}

#[test]
fn arena_alignment_padding_counts() {
    let mut a = FixedBaseAllocator::new();
    a.init(0x1001, 12);
    assert_eq!(a.allocate(4, 4), Ok(0x1004));
    assert_eq!(a.used(), 7);
    assert_eq!(a.allocate(4, 4), Ok(0x1008));
    assert_eq!(a.used(), 11);
    assert_eq!(a.allocate(2, 1), Err(AllocError::OutOfMemory));
    assert_eq!(a.allocate(1, 1), Ok(0x100C));
    assert_eq!(a.used(), 12);
    a.deallocate(0x1004, 4);
    assert_eq!(a.used(), 12);
}

#[test]
fn arena_without_region_refuses() {
    let mut a = FixedBaseAllocator::new();
    assert_eq!(a.allocate(0, 1), Err(AllocError::NoRegion));
}

#[test]
fn matrix_helpers() {
    let id = Mat4::identity();
    assert_eq!(id.c0, Vec4::new(F32_ONE, F32_ZERO, F32_ZERO, F32_ZERO));
    let t = Mat4::translation(v3(1.0, 2.0, 3.0));
    assert_eq!(t.c3, Vec4::new(f(1.0), f(2.0), f(3.0), f(1.0)));
    assert_eq!(t.c1, id.c1);
    let s = Mat4::scale3(v3(2.0, 3.0, 4.0));
    assert_eq!(s.c0.x, f(2.0));
    assert_eq!(s.c1.y, f(3.0));
    assert_eq!(s.c2.z, f(4.0));
    assert_eq!(s.c3, id.c3);
    let n = t.to_normal_matrix();
    assert_eq!(n, id);
}

#[test]
fn material_stats_counts_channels() {
    let s = rich_scene();
    let st = material_stats(&s);
    assert_eq!((st.base_color.absent, st.base_color.texture, st.base_color.constant), (0, 1, 1));
    assert_eq!((st.normal.absent, st.normal.texture, st.normal.constant), (1, 0, 1));
    assert_eq!((st.specular.absent, st.specular.texture, st.specular.constant), (1, 0, 1));
    assert_eq!((st.emissive.absent, st.emissive.texture, st.emissive.constant), (1, 0, 1));
    let m = Mesh { material: absent_material(), ..triangle_mesh() };
    let st = material_stats(&Scene { meshes: vec![m], images: Vec::new() });
    assert_eq!(st.base_color.absent, 1);
}

fn frame_with_slices(data: &[u8], sizes: &[usize]) -> Vec<u8> {
    let mut file = Vec::new();
    let mut at = 0;
    for &n in sizes {
        let block = lz4::block::compress(&data[at..at + n], None, false).unwrap();
        file.extend_from_slice(&(block.len() as u32).to_le_bytes());
        file.extend_from_slice(&(n as u32).to_le_bytes());
        file.extend_from_slice(&block);
        at += n;
    }
    assert_eq!(at, data.len());
    file
}

#[test]
fn decompress_accepts_any_slicing() {
    let data: Vec<u8> = (0..10_000u32).map(|i| (i % 251) as u8 ^ (i / 97) as u8).collect();
    for sizes in [vec![10_000], vec![1, 0, 4096, 5903], vec![5000, 5000], vec![0, 10_000, 0]] {
        let file = frame_with_slices(&data, &sizes);
        assert_eq!(chunked_size(&file), Some(10_000));
        assert_eq!(decompress(&file).unwrap(), data);
    }
}

#[test]
fn scene_loads_from_any_slicing() {
    let s = rich_scene();
    let buf = s.encode();
    let n = buf.len();
    let file = frame_with_slices(&buf, &[7, n / 2 - 7, n - n / 2]);
    assert_eq!(load_scene_from_file(&file).unwrap(), s);
}

#[test]
fn chunked_size_rejects_bad_framing() {
    let mut file = compress(b"some bytes to frame");
    assert_eq!(chunked_size(&file), Some(19));
    file.push(0);
    assert_eq!(chunked_size(&file), None);
    let big = [0u8, 0, 0, 0, 0, 0, 0, 0x7F];
    assert_eq!(chunked_size(&big), None);
}
