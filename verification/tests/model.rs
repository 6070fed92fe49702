use redextract::model::{padded_string, Model, ObjLine};

fn u16s(out: &mut Vec<u8>, xs: &[u16]) {
    for x in xs {
        out.extend_from_slice(&x.to_le_bytes());
    }
}

fn u32s(out: &mut Vec<u8>, xs: &[u32]) {
    for x in xs {
        out.extend_from_slice(&x.to_le_bytes());
    }
}

fn padded(text: &str, len: usize) -> Vec<u8> {
    let mut out = text.as_bytes().to_vec();
    out.resize(len, 0);
    out
}

fn mesh(out: &mut Vec<u8>, texture: &str, name: &str, vertex_count: u16, index_count: u16) {
    out.extend(padded(texture, 50));
    out.extend(padded(name, 40));
    u16s(out, &[7]);
    u32s(out, &[0xff00ff00]);
    u16s(out, &[0, vertex_count, 0, index_count]);
    out.extend_from_slice(&0x0102_0304_0506_0708u64.to_le_bytes());
}

fn vertex(out: &mut Vec<u8>, x: f32, y: f32, z: f32) {
    for f in [x, y, z] {
        out.extend_from_slice(&f.to_bits().to_le_bytes());
    }
    u32s(out, &[0x11223344]);
    for f in [0.5f32, 0.25, 0.0, 1.0, 0.0] {
        out.extend_from_slice(&f.to_bits().to_le_bytes());
    }
}

/// Two meshes: a textured triangle (3 vertices, 1 triangle) and an untextured
/// one (3 vertices, 1 triangle).
fn two_meshes(unk1: u32) -> Vec<u8> {
    let mut out = b"BGGF".to_vec();
    u32s(&mut out, &[unk1, 2, 6, 2]);
    if unk1 != 1 {
        u32s(&mut out, &[99]);
    }
    for k in 0..12u32 {
        out.extend_from_slice(&(k as f32).to_bits().to_le_bytes());
    }
    mesh(&mut out, "road.tga", "first", 3, 1);
    mesh(&mut out, "", "second", 3, 1);
    u16s(&mut out, &[0, 1, 2, 2, 1, 0]);
    for i in 0..6 {
        vertex(&mut out, i as f32, 2.0, -3.0);
    }
    out
}

#[test]
fn padded_strings_stop_at_the_first_zero() {
    assert_eq!(padded_string(b"abc\0def"), "abc");
    assert_eq!(padded_string(b"abc"), "abc");
    assert_eq!(padded_string(b"\0abc"), "");
    assert_eq!(padded_string(b""), "");
}

#[test]
fn loads_header_meshes_indices_and_vertices() {
    let raw = two_meshes(2);
    let model = Model::try_load(&raw).unwrap();
    assert_eq!(model.unk1, 2);
    assert_eq!(model.unk2, 99);
    assert_eq!(model.idx_total, 2);
    assert_eq!(model.vert_total, 6);
    assert_eq!(model.mesh_count, 2);
    assert_eq!(f32::from_bits(model.bbox[3][2]), 11.0);
    assert_eq!(model.mesh_entries.len(), 2);
    let first = &model.mesh_entries[0];
    assert_eq!(first.texture, "road.tga");
    assert_eq!(first.name, "first");
    assert_eq!(first.unk1, 7);
    assert_eq!(first.color, 0xff00ff00);
    assert_eq!(first.vertex_count, 3);
    assert_eq!(first.index_count, 1);
    assert_eq!(first.flags, 0x0102_0304_0506_0708);
    assert_eq!(model.indices, vec![[0, 1, 2], [2, 1, 0]]);
    assert_eq!(model.vertices.len(), 6);
    assert_eq!(f32::from_bits(model.vertices[4].x), 4.0);
    assert_eq!(f32::from_bits(model.vertices[4].z), -3.0);
    assert_eq!(model.vertices[4].color, 0x11223344);
    assert_eq!(f32::from_bits(model.vertices[4].u), 0.5);
    assert_eq!(f32::from_bits(model.vertices[4].ny), 1.0);
}

#[test]
fn shadow_models_have_no_second_unknown() {
    let raw = two_meshes(1);
    let model = Model::load(&raw);
    assert_eq!(model.unk1, 1);
    assert_eq!(model.unk2, 0);
    assert_eq!(model.mesh_entries[1].name, "second");
}

#[test]
fn malformed_models_are_refused() {
    let raw = two_meshes(2);
    assert!(Model::try_load(&raw[..raw.len() - 1]).is_none());
    let mut bad_magic = raw.clone();
    bad_magic[0] = b'X';
    assert!(Model::try_load(&bad_magic).is_none());
    // the last byte of the first mesh name must be zero
    let mut bad_name = raw.clone();
    bad_name[24 + 48 + 89] = b'x';
    assert!(Model::try_load(&bad_name).is_none());
    assert!(Model::try_load(b"BGGF").is_none());
}

#[test]
fn material_library() {
    let model = Model::load(&two_meshes(2));
    assert!(model.textures_ok());
    let mtl = String::from_utf8(model.to_mtl()).unwrap();
    assert_eq!(mtl, "newmtl _Default\nnewmtl road.tga\nmap_Kd road.btf.png\n");
}

#[test]
fn short_texture_names_cannot_lose_their_extension() {
    let mut raw = two_meshes(2);
    raw[24 + 48..24 + 48 + 3].copy_from_slice(b"ab\0");
    let model = Model::load(&raw);
    assert!(!model.textures_ok());
}

fn render(lines: &[ObjLine]) -> String {
    let mut out = String::new();
    for line in lines {
        match line {
            ObjLine::Text(t) => out.push_str(std::str::from_utf8(t).unwrap()),
            ObjLine::Position(x, y, z) => out.push_str(&format!(
                "v {} {} {}\n",
                f32::from_bits(*x),
                f32::from_bits(*y),
                f32::from_bits(*z)
            )),
            ObjLine::TexCoord(u, v) => {
                out.push_str(&format!("vt {} {}\n", f32::from_bits(*u), f32::from_bits(*v)))
            }
            ObjLine::Normal(x, y, z) => out.push_str(&format!(
                "vn {} {} {}\n",
                f32::from_bits(*x),
                f32::from_bits(*y),
                f32::from_bits(*z)
            )),
        }
    }
    out
}

#[test]
fn object_geometry() {
    let model = Model::load(&two_meshes(2));
    assert!(model.ranges_ok());
    let lines = model.to_obj("car.geo");
    let text = render(&lines);
    let expected = "mtllib car.geo.mtl\n\
        g first\n\
        usemtl road.tga\n\
        v -0 2 -3\nvt 0.5 0.25\nvn 0 1 0\n\
        v -1 2 -3\nvt 0.5 0.25\nvn 0 1 0\n\
        v -2 2 -3\nvt 0.5 0.25\nvn 0 1 0\n\
        f 1/1/1 2/2/2 3/3/3\n\
        g second\n\
        usemtl _Default\n\
        v -3 2 -3\nvt 0.5 0.25\nvn 0 1 0\n\
        v -4 2 -3\nvt 0.5 0.25\nvn 0 1 0\n\
        v -5 2 -3\nvt 0.5 0.25\nvn 0 1 0\n\
        f 6/6/6 5/5/5 4/4/4\n";
    assert_eq!(text, expected);
}

#[test]
fn meshes_beyond_the_vertices_are_refused() {
    let mut raw = two_meshes(2);
    // second mesh claims 4 vertices
    let o = 24 + 48 + 112 + 98;
    raw[o..o + 2].copy_from_slice(&4u16.to_le_bytes());
    let model = Model::load(&raw);
    assert!(!model.ranges_ok());
}

#[test]
fn bytes_after_the_model_are_ignored() {
    let raw = two_meshes(2);
    let mut longer = raw.clone();
    longer.extend_from_slice(&[0xde, 0xad, 0xbe, 0xef, 1, 2, 3]);
    let a = Model::load(&raw);
    let b = Model::try_load(&longer).unwrap();
    assert_eq!(a.bbox, b.bbox);
    assert_eq!(a.indices, b.indices);
    assert_eq!(a.vertices.len(), b.vertices.len());
    assert_eq!(a.vertices[5].x, b.vertices[5].x);
    assert_eq!(a.vertices[5].nz, b.vertices[5].nz);
    assert_eq!(a.to_mtl(), b.to_mtl());
    assert_eq!(render(&a.to_obj("m")), render(&b.to_obj("m")));
}

#[test]
fn padded_strings_read_back_unchanged() {
    for raw in [&b"abc\0def"[..], b"a\xffb", b"\xc3", b""] {
        let once = padded_string(raw);
        assert_eq!(padded_string(once.as_bytes()), once);
        assert!(!once.contains('\0'));
    }
}

#[test]
fn every_material_used_is_defined() {
    let model = Model::load(&two_meshes(2));
    let mtl = String::from_utf8(model.to_mtl()).unwrap();
    let obj = render(&model.to_obj("car.geo"));
    let mut used = 0;
    for line in obj.lines() {
        if let Some(name) = line.strip_prefix("usemtl ") {
            used += 1;
            assert!(mtl.lines().any(|l| l == format!("newmtl {}", name)));
        }
    }
    assert_eq!(used, 2);
}
