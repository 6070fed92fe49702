//! `geo` models: a header, a table of meshes, the triangle indices of all
//! meshes, then their vertices; and their conversion to Wavefront `mtl` and
//! `obj` text.

use vstd::prelude::*;
use vstd::string::*;
use vstd::utf8::*;

use crate::archive::{lemma_u32_bytes, u32_bytes};
use crate::reader::{le_u16, le_u32, le_u64, lemma_le_u32_range, ArchiveCursor};
use crate::texture::u16_bytes;
use crate::text::{decimal, decimal_bytes, decode_lossy, lemma_encode_no_zero, no_nul, push_all, utf8_lossy};

verus! {

/// The number of bytes before the first zero byte of `raw` (all of them if
/// there is none).
pub open spec fn text_len(raw: Seq<u8>) -> nat
    decreases raw.len(),
{
    if raw.len() == 0 || raw[0] == 0 {
        0
    } else {
        1 + text_len(raw.drop_first())
    }
}

/// `i` is where the text of `raw` ends when no byte before `i` is zero and
/// `i` is the end of `raw` or a zero byte.
proof fn lemma_text_len(raw: Seq<u8>, i: int)
    requires
        0 <= i <= raw.len(),
        forall|j: int| 0 <= j < i ==> raw[j] != 0,
        i == raw.len() || raw[i] == 0,
    ensures
        text_len(raw) == i,
    decreases i,
{
    if i > 0 {
        let rest = raw.drop_first();
        assert forall|j: int| 0 <= j < i - 1 implies rest[j] != 0 by {
            assert(rest[j] == raw[j + 1]);
        }
        if i < raw.len() {
            assert(rest[i - 1] == raw[i]);
        }
        lemma_text_len(rest, i - 1);
    }
}

/// A zero-padded string field: the text before the first zero byte.
pub open spec fn padded_text(raw: Seq<u8>) -> Seq<u8> {
    raw.take(text_len(raw) as int)
}

/// Decodes a zero-padded string field (invalid UTF-8 replaced).
pub fn padded_string(raw: &[u8]) -> (s: String)
    ensures
        padded_result(raw@, s@),
{
    let mut i: usize = 0;
    while i < raw.len() && raw[i] != 0
        invariant
            i <= raw.len(),
            forall|j: int| 0 <= j < i ==> raw@[j] != 0,
        decreases raw.len() - i,
    {
        i = i + 1;
    }
    proof {
        lemma_text_len(raw@, i as int);
    }
    let text = &raw[0..i];
    assert(text@ =~= padded_text(raw@));
    decode_lossy(text)
}

/// `s` is the text that `padded_string` reads out of `raw`: the bytes before
/// the first zero, decoded (invalid UTF-8 replaced), and so without a NUL.
pub open spec fn padded_result(raw: Seq<u8>, s: Seq<char>) -> bool {
    &&& s == utf8_lossy(padded_text(raw))
    &&& valid_utf8(padded_text(raw)) ==> s == decode_utf8(padded_text(raw))
    &&& no_nul(s)
}

/// Reading a padded string out of the bytes of a padded string gives it back.
pub proof fn lemma_padded_string_idempotent(raw: Seq<u8>, s: Seq<char>, t: Seq<char>)
    requires
        padded_result(raw, s),
        padded_result(encode_utf8(s), t),
    ensures
        t == s,
{
    let b = encode_utf8(s);
    lemma_encode_no_zero(s);
    lemma_text_len(b, b.len() as int);
    assert(padded_text(b) =~= b);
    encode_utf8_valid_utf8(s);
    encode_utf8_decode_utf8(s);
}

/// The size of one mesh entry.
pub const MESH_ENTRY_LEN: usize = 112;

/// The size of one triangle (three `u16` indices).
pub const TRIANGLE_LEN: usize = 6;

/// The size of one vertex.
pub const VERTEX_LEN: usize = 36;

/// One mesh of a model: its texture, name, colour, the ranges of vertices and
/// triangle indices it owns, and its rendering flags.
pub struct MeshEntry {
    /// File name of the texture (a `.tga` name); empty for none.
    pub texture: String,
    pub name: String,
    pub unk1: u16,
    /// Colour used by the shader.
    pub color: u32,
    pub vertex_off: u16,
    pub vertex_count: u16,
    pub index_off: u16,
    pub index_count: u16,
    /// Render flags, blend mode and unknown bytes.
    pub flags: u64,
}

/// One vertex. The eight coordinates are IEEE-754 `f32` values, held as
/// their bit patterns.
pub struct Vertex {
    /// World coordinates (x stored negated).
    pub x: u32,
    pub y: u32,
    pub z: u32,
    /// Vertex colour in BGRA; alpha appears unused.
    pub color: u32,
    /// Texture coordinates.
    pub u: u32,
    pub v: u32,
    /// Normal.
    pub nx: u32,
    pub ny: u32,
    pub nz: u32,
}

/// A model: header values, bounding boxes, meshes, triangles and vertices.
pub struct Model {
    pub unk1: u32,
    pub idx_total: u32,
    pub vert_total: u32,
    pub mesh_count: u32,
    /// Present in the data only when `unk1` is not 1 (0 otherwise).
    pub unk2: u32,
    /// Four corners of bounding boxes, as `f32` bit patterns.
    pub bbox: [[u32; 3]; 4],
    pub mesh_entries: Vec<MeshEntry>,
    pub indices: Vec<[u16; 3]>,
    pub vertices: Vec<Vertex>,
}

/// The bytes "BGGF" that begin every model.
pub open spec fn geo_magic() -> Seq<u8> {
    seq![66u8, 71u8, 71u8, 70u8]
}

/// The size of the header of `s` before the bounding boxes.
pub open spec fn geo_header_len(s: Seq<u8>) -> int {
    if le_u32(s, 4) != 1 {
        24
    } else {
        20
    }
}

/// Where the mesh table of `s` begins.
pub open spec fn geo_mesh_start(s: Seq<u8>) -> int {
    geo_header_len(s) + 48
}

/// Where the triangles of `s` begin.
pub open spec fn geo_index_start(s: Seq<u8>) -> int {
    geo_mesh_start(s) + MESH_ENTRY_LEN * le_u32(s, 16)
}

/// Where the vertices of `s` begin.
pub open spec fn geo_vertex_start(s: Seq<u8>) -> int {
    geo_index_start(s) + TRIANGLE_LEN * le_u32(s, 8)
}

/// Where the model in `s` ends.
pub open spec fn geo_end(s: Seq<u8>) -> int {
    geo_vertex_start(s) + VERTEX_LEN * le_u32(s, 12)
}

/// Whether `s` holds a whole model: the magic bytes, every byte that the
/// header announces, and mesh names whose last byte is zero.
pub open spec fn geo_loadable(s: Seq<u8>) -> bool {
    &&& s.len() >= 24
    &&& s.subrange(0, 4) == geo_magic()
    &&& geo_end(s) <= s.len()
    &&& forall|i: int|
        0 <= i < le_u32(s, 16) ==> #[trigger] s[geo_mesh_start(s) + MESH_ENTRY_LEN * i + 89] == 0
}

/// `m` is the mesh entry stored at offset `o` of `s`.
pub open spec fn mesh_at(s: Seq<u8>, o: int, m: MeshEntry) -> bool {
    &&& m.texture@ == utf8_lossy(padded_text(s.subrange(o, o + 50)))
    &&& m.name@ == utf8_lossy(padded_text(s.subrange(o + 50, o + 90)))
    &&& m.unk1 == le_u16(s, o + 90)
    &&& m.color == le_u32(s, o + 92)
    &&& m.vertex_off == le_u16(s, o + 96)
    &&& m.vertex_count == le_u16(s, o + 98)
    &&& m.index_off == le_u16(s, o + 100)
    &&& m.index_count == le_u16(s, o + 102)
    &&& m.flags == le_u64(s, o + 104)
}

/// `v` is the vertex stored at offset `o` of `s`.
pub open spec fn vertex_at(s: Seq<u8>, o: int, v: Vertex) -> bool {
    &&& v.x == le_u32(s, o)
    &&& v.y == le_u32(s, o + 4)
    &&& v.z == le_u32(s, o + 8)
    &&& v.color == le_u32(s, o + 12)
    &&& v.u == le_u32(s, o + 16)
    &&& v.v == le_u32(s, o + 20)
    &&& v.nx == le_u32(s, o + 24)
    &&& v.ny == le_u32(s, o + 28)
    &&& v.nz == le_u32(s, o + 32)
}

/// `t` is the triangle stored at offset `o` of `s`.
pub open spec fn triangle_at(s: Seq<u8>, o: int, t: [u16; 3]) -> bool {
    t@ == seq![le_u16(s, o) as u16, le_u16(s, o + 2) as u16, le_u16(s, o + 4) as u16]
}

/// `m` is the model that `s` holds.
pub open spec fn geo_decoded(s: Seq<u8>, m: Model) -> bool {
    let h = geo_header_len(s);
    &&& m.unk1 == le_u32(s, 4)
    &&& m.idx_total == le_u32(s, 8)
    &&& m.vert_total == le_u32(s, 12)
    &&& m.mesh_count == le_u32(s, 16)
    &&& m.unk2 == (if h == 24 {
        le_u32(s, 20)
    } else {
        0
    })
    &&& forall|i: int, j: int|
        0 <= i < 4 && 0 <= j < 3 ==> #[trigger] m.bbox[i][j] == le_u32(s, h + 12 * i + 4 * j)
    &&& m.mesh_entries@.len() == m.mesh_count
    &&& forall|i: int|
        0 <= i < m.mesh_count ==> mesh_at(
            s,
            geo_mesh_start(s) + MESH_ENTRY_LEN * i,
            #[trigger] m.mesh_entries@[i],
        )
    &&& m.indices@.len() == m.idx_total
    &&& forall|i: int|
        0 <= i < m.idx_total ==> triangle_at(
            s,
            geo_index_start(s) + TRIANGLE_LEN * i,
            #[trigger] m.indices@[i],
        )
    &&& m.vertices@.len() == m.vert_total
    &&& forall|i: int|
        0 <= i < m.vert_total ==> vertex_at(
            s,
            geo_vertex_start(s) + VERTEX_LEN * i,
            #[trigger] m.vertices@[i],
        )
}

/// A mesh entry that lies inside `s` reads the same after bytes are added.
proof fn lemma_mesh_at_extended(s: Seq<u8>, e: Seq<u8>, o: int, m: MeshEntry)
    requires
        0 <= o,
        o + MESH_ENTRY_LEN <= s.len(),
    ensures
        mesh_at(s + e, o, m) <==> mesh_at(s, o, m),
{
    let t = s + e;
    assert(t.subrange(o, o + 50) =~= s.subrange(o, o + 50));
    assert(t.subrange(o + 50, o + 90) =~= s.subrange(o + 50, o + 90));
    assert(le_u16(t, o + 90) == le_u16(s, o + 90));
    assert(le_u32(t, o + 92) == le_u32(s, o + 92));
    assert(le_u16(t, o + 96) == le_u16(s, o + 96));
    assert(le_u16(t, o + 98) == le_u16(s, o + 98));
    assert(le_u16(t, o + 100) == le_u16(s, o + 100));
    assert(le_u16(t, o + 102) == le_u16(s, o + 102));
    assert(le_u64(t, o + 104) == le_u64(s, o + 104));
}

/// A vertex that lies inside `s` reads the same after bytes are added.
proof fn lemma_vertex_at_extended(s: Seq<u8>, e: Seq<u8>, o: int, v: Vertex)
    requires
        0 <= o,
        o + VERTEX_LEN <= s.len(),
    ensures
        vertex_at(s + e, o, v) <==> vertex_at(s, o, v),
{
    let t = s + e;
    assert(le_u32(t, o) == le_u32(s, o));
    assert(le_u32(t, o + 4) == le_u32(s, o + 4));
    assert(le_u32(t, o + 8) == le_u32(s, o + 8));
    assert(le_u32(t, o + 12) == le_u32(s, o + 12));
    assert(le_u32(t, o + 16) == le_u32(s, o + 16));
    assert(le_u32(t, o + 20) == le_u32(s, o + 20));
    assert(le_u32(t, o + 24) == le_u32(s, o + 24));
    assert(le_u32(t, o + 28) == le_u32(s, o + 28));
    assert(le_u32(t, o + 32) == le_u32(s, o + 32));
}

/// A triangle that lies inside `s` reads the same after bytes are added.
proof fn lemma_triangle_at_extended(s: Seq<u8>, e: Seq<u8>, o: int, tri: [u16; 3])
    requires
        0 <= o,
        o + TRIANGLE_LEN <= s.len(),
    ensures
        triangle_at(s + e, o, tri) <==> triangle_at(s, o, tri),
{
    let t = s + e;
    assert(le_u16(t, o) == le_u16(s, o));
    assert(le_u16(t, o + 2) == le_u16(s, o + 2));
    assert(le_u16(t, o + 4) == le_u16(s, o + 4));
}

/// Bytes after the end of a model change nothing: the longer data holds a
/// whole model too, and the same one.
pub proof fn lemma_geo_trailing_bytes(s: Seq<u8>, e: Seq<u8>, m: Model)
    requires
        geo_loadable(s),
    ensures
        geo_loadable(s + e),
        geo_decoded(s + e, m) <==> geo_decoded(s, m),
{
    let t = s + e;
    lemma_le_u32_range(s, 8);
    lemma_le_u32_range(s, 12);
    lemma_le_u32_range(s, 16);
    assert(le_u32(t, 4) == le_u32(s, 4));
    assert(le_u32(t, 8) == le_u32(s, 8));
    assert(le_u32(t, 12) == le_u32(s, 12));
    assert(le_u32(t, 16) == le_u32(s, 16));
    assert(le_u32(t, 20) == le_u32(s, 20));
    assert(geo_end(t) == geo_end(s));
    assert(t.subrange(0, 4) =~= s.subrange(0, 4));
    let ms = geo_mesh_start(s);
    let mc = le_u32(s, 16);
    assert forall|i: int| 0 <= i < mc implies #[trigger] t[ms + MESH_ENTRY_LEN * i + 89] == s[ms
        + MESH_ENTRY_LEN * i + 89] by {
        assert(ms + MESH_ENTRY_LEN * i + 89 < geo_index_start(s));
    }
    assert(geo_loadable(t));
    let h = geo_header_len(s);
    assert forall|i: int, j: int| 0 <= i < 4 && 0 <= j < 3 implies (#[trigger] m.bbox[i][j]
        == le_u32(t, h + 12 * i + 4 * j) <==> m.bbox[i][j] == le_u32(s, h + 12 * i + 4 * j)) by {
        assert(h + 12 * i + 4 * j + 4 <= ms);
    }
    assert forall|i: int| 0 <= i < mc implies (mesh_at(
        t,
        ms + MESH_ENTRY_LEN * i,
        #[trigger] m.mesh_entries@[i],
    ) <==> mesh_at(s, ms + MESH_ENTRY_LEN * i, m.mesh_entries@[i])) by {
        lemma_mesh_at_extended(s, e, ms + MESH_ENTRY_LEN * i, m.mesh_entries@[i]);
    }
    let is = geo_index_start(s);
    assert forall|i: int| 0 <= i < le_u32(s, 8) implies (triangle_at(
        t,
        is + TRIANGLE_LEN * i,
        #[trigger] m.indices@[i],
    ) <==> triangle_at(s, is + TRIANGLE_LEN * i, m.indices@[i])) by {
        lemma_triangle_at_extended(s, e, is + TRIANGLE_LEN * i, m.indices@[i]);
    }
    let vs = geo_vertex_start(s);
    assert forall|i: int| 0 <= i < le_u32(s, 12) implies (vertex_at(
        t,
        vs + VERTEX_LEN * i,
        #[trigger] m.vertices@[i],
    ) <==> vertex_at(s, vs + VERTEX_LEN * i, m.vertices@[i])) by {
        lemma_vertex_at_extended(s, e, vs + VERTEX_LEN * i, m.vertices@[i]);
    }
}

/// Where `x + y` stands at `p` in `s`, `x` stands at `p` and `y` right after.
proof fn lemma_split(s: Seq<u8>, p: int, x: Seq<u8>, y: Seq<u8>)
    requires
        0 <= p,
        p + x.len() + y.len() <= s.len(),
        s.subrange(p, p + x.len() + y.len()) == x + y,
    ensures
        s.subrange(p, p + x.len()) == x,
        s.subrange(p + x.len(), p + x.len() + y.len()) == y,
{
    assert(s.subrange(p, p + x.len()) =~= (x + y).subrange(0, x.len() as int));
    assert(s.subrange(p + x.len(), p + x.len() + y.len()) =~= (x + y).subrange(
        x.len() as int,
        x.len() + y.len() as int,
    ));
    assert((x + y).subrange(0, x.len() as int) =~= x);
    assert((x + y).subrange(x.len() as int, x.len() + y.len() as int) =~= y);
}

/// The eight little-endian bytes of `x`.
pub open spec fn u64_bytes(x: u64) -> Seq<u8> {
    u32_bytes((x % 0x1_0000_0000) as u32) + u32_bytes((x / 0x1_0000_0000) as u32)
}

/// Two bytes written by `u16_bytes` read back as the same number.
proof fn lemma_u16_bytes(s: Seq<u8>, p: int, x: u16)
    requires
        0 <= p,
        p + 2 <= s.len(),
        s.subrange(p, p + 2) == u16_bytes(x),
    ensures
        le_u16(s, p) == x,
{
    assert(s[p] == s.subrange(p, p + 2)[0]);
    assert(s[p + 1] == s.subrange(p, p + 2)[1]);
}

/// Eight bytes written by `u64_bytes` read back as the same number.
proof fn lemma_u64_bytes(s: Seq<u8>, p: int, x: u64)
    requires
        0 <= p,
        p + 8 <= s.len(),
        s.subrange(p, p + 8) == u64_bytes(x),
    ensures
        le_u64(s, p) == x,
{
    let lo = (x % 0x1_0000_0000) as u32;
    let hi = (x / 0x1_0000_0000) as u32;
    lemma_split(s, p, u32_bytes(lo), u32_bytes(hi));
    lemma_u32_bytes(s, p, lo);
    lemma_u32_bytes(s, p + 4, hi);
}

/// The numeric fields of a mesh entry, after its two names, in the order the
/// format lays them out: unk1, colour, vertex offset, vertex count, index
/// offset, index count, flags.
pub open spec fn mesh_fields_bytes(
    unk1: u16,
    color: u32,
    vertex_off: u16,
    vertex_count: u16,
    index_off: u16,
    index_count: u16,
    flags: u64,
) -> Seq<u8> {
    u16_bytes(unk1) + u32_bytes(color) + u16_bytes(vertex_off) + u16_bytes(vertex_count) + u16_bytes(
        index_off,
    ) + u16_bytes(index_count) + u64_bytes(flags)
}

/// The bytes of a vertex in the order the format lays them out: x, y, z,
/// colour, u, v, nx, ny, nz.
pub open spec fn vertex_bytes(v: Vertex) -> Seq<u8> {
    u32_bytes(v.x) + u32_bytes(v.y) + u32_bytes(v.z) + u32_bytes(v.color) + u32_bytes(v.u)
        + u32_bytes(v.v) + u32_bytes(v.nx) + u32_bytes(v.ny) + u32_bytes(v.nz)
}

/// A loaded mesh entry has the numbers that were written, in layout order,
/// after its names: whatever was stored as vertex offset, vertex count,
/// index offset, index count (and the rest) comes back in that field.
pub proof fn lemma_mesh_fields_read_back(
    s: Seq<u8>,
    m: Model,
    i: int,
    unk1: u16,
    color: u32,
    vertex_off: u16,
    vertex_count: u16,
    index_off: u16,
    index_count: u16,
    flags: u64,
)
    requires
        geo_loadable(s),
        geo_decoded(s, m),
        0 <= i < m.mesh_count,
        s.subrange(geo_mesh_start(s) + MESH_ENTRY_LEN * i + 90, geo_mesh_start(s) + MESH_ENTRY_LEN * i + 112)
            == mesh_fields_bytes(unk1, color, vertex_off, vertex_count, index_off, index_count, flags),
    ensures
        m.mesh_entries@[i].unk1 == unk1,
        m.mesh_entries@[i].color == color,
        m.mesh_entries@[i].vertex_off == vertex_off,
        m.mesh_entries@[i].vertex_count == vertex_count,
        m.mesh_entries@[i].index_off == index_off,
        m.mesh_entries@[i].index_count == index_count,
        m.mesh_entries@[i].flags == flags,
{
    let o = geo_mesh_start(s) + MESH_ENTRY_LEN * i;
    assert(o + 112 <= geo_index_start(s));
    lemma_le_u32_range(s, 8);
    lemma_le_u32_range(s, 12);
    assert(mesh_at(s, o, m.mesh_entries@[i]));
    let p = o + 90;
    let a1 = u16_bytes(unk1);
    let a2 = a1 + u32_bytes(color);
    let a3 = a2 + u16_bytes(vertex_off);
    let a4 = a3 + u16_bytes(vertex_count);
    let a5 = a4 + u16_bytes(index_off);
    let a6 = a5 + u16_bytes(index_count);
    lemma_split(s, p, a6, u64_bytes(flags));
    lemma_split(s, p, a5, u16_bytes(index_count));
    lemma_split(s, p, a4, u16_bytes(index_off));
    lemma_split(s, p, a3, u16_bytes(vertex_count));
    lemma_split(s, p, a2, u16_bytes(vertex_off));
    lemma_split(s, p, a1, u32_bytes(color));
    lemma_u16_bytes(s, o + 90, unk1);
    lemma_u32_bytes(s, o + 92, color);
    lemma_u16_bytes(s, o + 96, vertex_off);
    lemma_u16_bytes(s, o + 98, vertex_count);
    lemma_u16_bytes(s, o + 100, index_off);
    lemma_u16_bytes(s, o + 102, index_count);
    lemma_u64_bytes(s, o + 104, flags);
}

/// A loaded vertex is the vertex whose bytes were written, field by field in
/// layout order, at its place.
pub proof fn lemma_vertex_read_back(s: Seq<u8>, m: Model, i: int, v: Vertex)
    requires
        geo_loadable(s),
        geo_decoded(s, m),
        0 <= i < m.vert_total,
        s.subrange(geo_vertex_start(s) + VERTEX_LEN * i, geo_vertex_start(s) + VERTEX_LEN * i + 36)
            == vertex_bytes(v),
    ensures
        m.vertices@[i] == v,
{
    let o = geo_vertex_start(s) + VERTEX_LEN * i;
    lemma_le_u32_range(s, 8);
    lemma_le_u32_range(s, 16);
    assert(vertex_at(s, o, m.vertices@[i]));
    let a1 = u32_bytes(v.x);
    let a2 = a1 + u32_bytes(v.y);
    let a3 = a2 + u32_bytes(v.z);
    let a4 = a3 + u32_bytes(v.color);
    let a5 = a4 + u32_bytes(v.u);
    let a6 = a5 + u32_bytes(v.v);
    let a7 = a6 + u32_bytes(v.nx);
    let a8 = a7 + u32_bytes(v.ny);
    lemma_split(s, o, a8, u32_bytes(v.nz));
    lemma_split(s, o, a7, u32_bytes(v.ny));
    lemma_split(s, o, a6, u32_bytes(v.nx));
    lemma_split(s, o, a5, u32_bytes(v.v));
    lemma_split(s, o, a4, u32_bytes(v.u));
    lemma_split(s, o, a3, u32_bytes(v.color));
    lemma_split(s, o, a2, u32_bytes(v.z));
    lemma_split(s, o, a1, u32_bytes(v.y));
    lemma_u32_bytes(s, o, v.x);
    lemma_u32_bytes(s, o + 4, v.y);
    lemma_u32_bytes(s, o + 8, v.z);
    lemma_u32_bytes(s, o + 12, v.color);
    lemma_u32_bytes(s, o + 16, v.u);
    lemma_u32_bytes(s, o + 20, v.v);
    lemma_u32_bytes(s, o + 24, v.nx);
    lemma_u32_bytes(s, o + 28, v.ny);
    lemma_u32_bytes(s, o + 32, v.nz);
}

/// Reads the mesh entry at the cursor.
fn read_mesh(input: &mut ArchiveCursor) -> (m: MeshEntry)
    requires
        old(input).pos + MESH_ENTRY_LEN <= old(input).data.len(),
    ensures
        final(input).data == old(input).data,
        final(input).pos == old(input).pos + MESH_ENTRY_LEN,
        mesh_at(old(input).data@, old(input).pos as int, m),
{
    let ghost s = input.data@;
    let ghost o = input.pos as int;
    let texture = padded_string(input.read_slice(50));
    let name = padded_string(input.read_slice(40));
    let unk1 = input.read_u16();
    let color = input.read_u32();
    let vertex_off = input.read_u16();
    let vertex_count = input.read_u16();
    let index_off = input.read_u16();
    let index_count = input.read_u16();
    let flags = input.read_u64();
    MeshEntry { texture, name, unk1, color, vertex_off, vertex_count, index_off, index_count, flags }
}

/// Reads the vertex at the cursor.
fn read_vertex(input: &mut ArchiveCursor) -> (v: Vertex)
    requires
        old(input).pos + VERTEX_LEN <= old(input).data.len(),
    ensures
        final(input).data == old(input).data,
        final(input).pos == old(input).pos + VERTEX_LEN,
        vertex_at(old(input).data@, old(input).pos as int, v),
{
    let x = input.read_u32();
    let y = input.read_u32();
    let z = input.read_u32();
    let color = input.read_u32();
    let u = input.read_u32();
    let v = input.read_u32();
    let nx = input.read_u32();
    let ny = input.read_u32();
    let nz = input.read_u32();
    Vertex { x, y, z, color, u, v, nx, ny, nz }
}

/// Reads three `f32` bit patterns at the cursor.
fn read_corner(input: &mut ArchiveCursor) -> (c: [u32; 3])
    requires
        old(input).pos + 12 <= old(input).data.len(),
    ensures
        final(input).data == old(input).data,
        final(input).pos == old(input).pos + 12,
        c[0] == le_u32(old(input).data@, old(input).pos as int),
        c[1] == le_u32(old(input).data@, old(input).pos + 4),
        c[2] == le_u32(old(input).data@, old(input).pos + 8),
{
    let a = input.read_u32();
    let b = input.read_u32();
    let c = input.read_u32();
    [a, b, c]
}

/// Whether a texture name can lose its four-byte extension: empty, or at
/// least four bytes long with a character boundary four bytes from the end.
pub open spec fn texture_name_ok(t: Seq<u8>) -> bool {
    t.len() == 0 || (t.len() >= 4 && is_char_boundary(t, t.len() - 4))
}

/// The material definitions for the first `n` meshes: a default material,
/// then for each textured mesh a material named after its texture that maps
/// the texture's PNG (the name without its last four bytes, plus
/// ".btf.png").
pub open spec fn mtl_text(meshes: Seq<MeshEntry>, n: nat) -> Seq<u8>
    decreases n,
{
    if n == 0 {
        "newmtl ".spec_bytes() + "_Default".spec_bytes() + "\n".spec_bytes()
    } else {
        let t = encode_utf8(meshes[n - 1].texture@);
        mtl_text(meshes, (n - 1) as nat) + if t.len() == 0 {
            Seq::empty()
        } else {
            "newmtl ".spec_bytes() + t + "\n".spec_bytes() + "map_Kd ".spec_bytes() + t.take(
                t.len() - 4,
            ) + ".btf.png".spec_bytes() + "\n".spec_bytes()
        }
    }
}

/// One line of `obj` output. Lines that hold coordinates keep them as `f32`
/// bit patterns, for the caller to print as decimal numbers.
pub enum ObjLine {
    /// A complete line of text, newline included.
    Text(Vec<u8>),
    /// `v x y z`: a vertex position.
    Position(u32, u32, u32),
    /// `vt u v`: texture coordinates.
    TexCoord(u32, u32),
    /// `vn x y z`: a normal.
    Normal(u32, u32, u32),
}

/// The abstract content of an `ObjLine`.
pub enum ObjLineView {
    Text(Seq<u8>),
    Position(u32, u32, u32),
    TexCoord(u32, u32),
    Normal(u32, u32, u32),
}

impl View for ObjLine {
    type V = ObjLineView;

    open spec fn view(&self) -> ObjLineView {
        match self {
            ObjLine::Text(t) => ObjLineView::Text(t@),
            ObjLine::Position(x, y, z) => ObjLineView::Position(*x, *y, *z),
            ObjLine::TexCoord(u, v) => ObjLineView::TexCoord(*u, *v),
            ObjLine::Normal(x, y, z) => ObjLineView::Normal(*x, *y, *z),
        }
    }
}

/// The sign bit of an `f32`: flipping it negates the number.
pub const SIGN_BIT: u32 = 0x8000_0000;

/// The number of vertices that the first `k` meshes own.
pub open spec fn verts_before(meshes: Seq<MeshEntry>, k: int) -> int
    decreases k,
{
    if k <= 0 {
        0
    } else {
        verts_before(meshes, k - 1) + meshes[k - 1].vertex_count
    }
}

/// The number of triangles that the first `k` meshes own.
pub open spec fn tris_before(meshes: Seq<MeshEntry>, k: int) -> int
    decreases k,
{
    if k <= 0 {
        0
    } else {
        tris_before(meshes, k - 1) + meshes[k - 1].index_count
    }
}

/// More meshes never own fewer vertices or triangles.
proof fn lemma_before_mono(meshes: Seq<MeshEntry>, k: int, n: int)
    requires
        0 <= k <= n,
    ensures
        0 <= verts_before(meshes, k) <= verts_before(meshes, n),
        0 <= tris_before(meshes, k) <= tris_before(meshes, n),
    decreases n,
{
    if k < n {
        lemma_before_mono(meshes, k, n - 1);
    } else if n > 0 {
        lemma_before_mono(meshes, n - 1, n - 1);
    }
}

/// The position, texture-coordinate and normal lines of `n` vertices from
/// `start` on; positions with x negated back.
pub open spec fn vertex_lines(vs: Seq<Vertex>, start: int, n: nat) -> Seq<ObjLineView>
    decreases n,
{
    if n == 0 {
        Seq::empty()
    } else {
        let v = vs[start + n - 1];
        vertex_lines(vs, start, (n - 1) as nat) + seq![
            ObjLineView::Position(v.x ^ SIGN_BIT, v.y, v.z),
            ObjLineView::TexCoord(v.u, v.v),
            ObjLineView::Normal(v.nx, v.ny, v.nz),
        ]
    }
}

/// How a face names vertex `x` of a mesh whose vertices begin at
/// `vert_start`: its 1-based number, three times, for position, texture
/// coordinates and normal.
pub open spec fn face_ref(vert_start: int, x: u16) -> Seq<u8> {
    let d = decimal((1 + vert_start + x) as nat);
    d + "/".spec_bytes() + d + "/".spec_bytes() + d
}

/// The face lines of `n` triangles from `start` on, of a mesh whose vertices
/// begin at `vert_start`.
pub open spec fn face_lines(tris: Seq<[u16; 3]>, start: int, vert_start: int, n: nat) -> Seq<
    ObjLineView,
>
    decreases n,
{
    if n == 0 {
        Seq::empty()
    } else {
        let t = tris[start + n - 1];
        face_lines(tris, start, vert_start, (n - 1) as nat) + seq![
            ObjLineView::Text(
                "f ".spec_bytes() + face_ref(vert_start, t[0]) + " ".spec_bytes() + face_ref(
                    vert_start,
                    t[1],
                ) + " ".spec_bytes() + face_ref(vert_start, t[2]) + "\n".spec_bytes(),
            ),
        ]
    }
}

/// The material a mesh uses: its texture's name, or the default material.
pub open spec fn material_of(texture: Seq<char>) -> Seq<u8> {
    if encode_utf8(texture).len() == 0 {
        "_Default".spec_bytes()
    } else {
        encode_utf8(texture)
    }
}

/// The lines of mesh `k`: its group, its material, its vertices and its
/// faces.
pub open spec fn mesh_lines(
    meshes: Seq<MeshEntry>,
    vertices: Seq<Vertex>,
    tris: Seq<[u16; 3]>,
    k: int,
) -> Seq<ObjLineView> {
    let mesh = meshes[k];
    seq![
        ObjLineView::Text("g ".spec_bytes() + encode_utf8(mesh.name@) + "\n".spec_bytes()),
        ObjLineView::Text("usemtl ".spec_bytes() + material_of(mesh.texture@) + "\n".spec_bytes()),
    ] + vertex_lines(vertices, verts_before(meshes, k), mesh.vertex_count as nat) + face_lines(
        tris,
        tris_before(meshes, k),
        verts_before(meshes, k),
        mesh.index_count as nat,
    )
}

/// The `obj` lines of a model called `name`, up to its first `n` meshes.
pub open spec fn obj_lines(
    meshes: Seq<MeshEntry>,
    vertices: Seq<Vertex>,
    tris: Seq<[u16; 3]>,
    name: Seq<char>,
    n: nat,
) -> Seq<ObjLineView>
    decreases n,
{
    if n == 0 {
        seq![
            ObjLineView::Text("mtllib ".spec_bytes() + encode_utf8(name) + ".mtl\n".spec_bytes()),
        ]
    } else {
        obj_lines(meshes, vertices, tris, name, (n - 1) as nat) + mesh_lines(
            meshes,
            vertices,
            tris,
            n - 1,
        )
    }
}

/// Whether `mtl` holds, as a line of its own (at the start or right after a
/// newline), the line that defines the material `name`.
pub open spec fn defines_material(mtl: Seq<u8>, name: Seq<u8>) -> bool {
    let nl = "\n".spec_bytes();
    let line = "newmtl ".spec_bytes() + name + nl;
    exists|i: int|
        0 <= i && i + line.len() <= mtl.len() && #[trigger] mtl.subrange(i, i + line.len()) == line
            && (i == 0 || (i >= nl.len() && mtl.subrange(i - nl.len(), i) == nl))
}

/// Material definitions always end with a newline.
proof fn lemma_mtl_ends_line(meshes: Seq<MeshEntry>, n: nat)
    requires
        n <= meshes.len(),
    ensures
        mtl_text(meshes, n).len() >= "\n".spec_bytes().len(),
        mtl_text(meshes, n).subrange(
            mtl_text(meshes, n).len() - "\n".spec_bytes().len(),
            mtl_text(meshes, n).len() as int,
        ) == "\n".spec_bytes(),
    decreases n,
{
    let nl = "\n".spec_bytes();
    let text = mtl_text(meshes, n);
    if n == 0 {
        assert(text.subrange(text.len() - nl.len(), text.len() as int) =~= nl);
    } else {
        let m = (n - 1) as nat;
        lemma_mtl_ends_line(meshes, m);
        let prev = mtl_text(meshes, m);
        let t = encode_utf8(meshes[m as int].texture@);
        if t.len() == 0 {
            assert(text =~= prev);
        } else {
            assert(text.subrange(text.len() - nl.len(), text.len() as int) =~= nl);
        }
    }
}

/// A definition stays when more text follows.
proof fn lemma_defines_extend(mtl: Seq<u8>, more: Seq<u8>, name: Seq<u8>)
    requires
        defines_material(mtl, name),
    ensures
        defines_material(mtl + more, name),
{
    let nl = "\n".spec_bytes();
    let line = "newmtl ".spec_bytes() + name + nl;
    let i = choose|i: int|
        0 <= i && i + line.len() <= mtl.len() && #[trigger] mtl.subrange(i, i + line.len()) == line
            && (i == 0 || (i >= nl.len() && mtl.subrange(i - nl.len(), i) == nl));
    assert((mtl + more).subrange(i, i + line.len()) =~= mtl.subrange(i, i + line.len()));
    if i != 0 {
        assert((mtl + more).subrange(i - nl.len(), i) =~= mtl.subrange(i - nl.len(), i));
    }
}

/// The material definitions of the first `n` meshes define the default
/// material and the material of each of those meshes.
proof fn lemma_mtl_defines(meshes: Seq<MeshEntry>, n: nat)
    requires
        n <= meshes.len(),
    ensures
        defines_material(mtl_text(meshes, n), "_Default".spec_bytes()),
        forall|k: int| 0 <= k < n ==> defines_material(mtl_text(meshes, n), material_of(#[trigger] meshes[k].texture@)),
    decreases n,
{
    if n == 0 {
        let line = "newmtl ".spec_bytes() + "_Default".spec_bytes() + "\n".spec_bytes();
        assert(mtl_text(meshes, 0).subrange(0int, 0int + line.len()) =~= line);
    } else {
        let m = (n - 1) as nat;
        lemma_mtl_defines(meshes, m);
        let t = encode_utf8(meshes[m as int].texture@);
        let seg = if t.len() == 0 {
            Seq::<u8>::empty()
        } else {
            "newmtl ".spec_bytes() + t + "\n".spec_bytes() + "map_Kd ".spec_bytes() + t.take(t.len() - 4) + ".btf.png".spec_bytes() + "\n".spec_bytes()
        };
        let prev = mtl_text(meshes, m);
        assert(mtl_text(meshes, n) == prev + seg);
        lemma_mtl_ends_line(meshes, m);
        lemma_defines_extend(prev, seg, "_Default".spec_bytes());
        assert forall|k: int| 0 <= k < n implies defines_material(mtl_text(meshes, n), material_of(#[trigger] meshes[k].texture@)) by {
            if k < m {
                lemma_defines_extend(prev, seg, material_of(meshes[k].texture@));
            } else if t.len() == 0 {
            } else {
                let nl = "\n".spec_bytes();
                let line = "newmtl ".spec_bytes() + t + nl;
                assert((prev + seg).subrange(prev.len() as int, prev.len() + line.len() as int) =~= line);
                assert((prev + seg).subrange(prev.len() - nl.len(), prev.len() as int) =~= nl);
            }
        }
    }
}

/// Every material that the `obj` lines of a model use is defined by the
/// `mtl` text of the same model: mesh `k`'s "usemtl" line names
/// `material_of` its texture, and the material definitions hold a
/// "newmtl" line for that name.
pub proof fn lemma_obj_materials_defined(
    meshes: Seq<MeshEntry>,
    vertices: Seq<Vertex>,
    tris: Seq<[u16; 3]>,
    k: int,
)
    requires
        0 <= k < meshes.len(),
    ensures
        mesh_lines(meshes, vertices, tris, k)[1] == ObjLineView::Text(
            "usemtl ".spec_bytes() + material_of(meshes[k].texture@) + "\n".spec_bytes(),
        ),
        defines_material(mtl_text(meshes, meshes.len()), material_of(meshes[k].texture@)),
{
    lemma_mtl_defines(meshes, meshes.len());
}

/// Vertex `j` of a run of vertex lines takes lines `3j` to `3j + 2`.
proof fn lemma_vertex_lines_index(vs: Seq<Vertex>, start: int, n: nat, j: int)
    requires
        0 <= j < n,
    ensures
        vertex_lines(vs, start, n).len() == 3 * n,
        vertex_lines(vs, start, n)[3 * j] == ObjLineView::Position(
            vs[start + j].x ^ SIGN_BIT,
            vs[start + j].y,
            vs[start + j].z,
        ),
        vertex_lines(vs, start, n)[3 * j + 1] == ObjLineView::TexCoord(vs[start + j].u, vs[start + j].v),
        vertex_lines(vs, start, n)[3 * j + 2] == ObjLineView::Normal(
            vs[start + j].nx,
            vs[start + j].ny,
            vs[start + j].nz,
        ),
    decreases n,
{
    lemma_vertex_lines_len(vs, start, (n - 1) as nat);
    if j < n - 1 {
        lemma_vertex_lines_index(vs, start, (n - 1) as nat, j);
    }
}

/// A run of `n` vertices takes `3n` lines.
proof fn lemma_vertex_lines_len(vs: Seq<Vertex>, start: int, n: nat)
    ensures
        vertex_lines(vs, start, n).len() == 3 * n,
    decreases n,
{
    if n > 0 {
        lemma_vertex_lines_len(vs, start, (n - 1) as nat);
    }
}

/// Triangle `j` of a run of face lines takes line `j`.
proof fn lemma_face_lines_index(tris: Seq<[u16; 3]>, start: int, vert_start: int, n: nat, j: int)
    requires
        0 <= j < n,
    ensures
        face_lines(tris, start, vert_start, n).len() == n,
        face_lines(tris, start, vert_start, n)[j] == ObjLineView::Text(
            "f ".spec_bytes() + face_ref(vert_start, tris[start + j][0]) + " ".spec_bytes()
                + face_ref(vert_start, tris[start + j][1]) + " ".spec_bytes() + face_ref(
                vert_start,
                tris[start + j][2],
            ) + "\n".spec_bytes(),
        ),
    decreases n,
{
    lemma_face_lines_len(tris, start, vert_start, (n - 1) as nat);
    if j < n - 1 {
        lemma_face_lines_index(tris, start, vert_start, (n - 1) as nat, j);
    }
}

/// A run of `n` triangles takes `n` lines.
proof fn lemma_face_lines_len(tris: Seq<[u16; 3]>, start: int, vert_start: int, n: nat)
    ensures
        face_lines(tris, start, vert_start, n).len() == n,
    decreases n,
{
    if n > 0 {
        lemma_face_lines_len(tris, start, vert_start, (n - 1) as nat);
    }
}

/// The lines of mesh `k` stand in the `obj` lines right after those of the
/// meshes before it.
proof fn lemma_obj_lines_mesh(
    meshes: Seq<MeshEntry>,
    vertices: Seq<Vertex>,
    tris: Seq<[u16; 3]>,
    name: Seq<char>,
    n: nat,
    k: int,
    i: int,
)
    requires
        0 <= k < n,
        0 <= i < mesh_lines(meshes, vertices, tris, k).len(),
    ensures
        obj_lines(meshes, vertices, tris, name, (k + 1) as nat).len() <= obj_lines(meshes, vertices, tris, name, n).len(),
        obj_lines(meshes, vertices, tris, name, n)[obj_lines(meshes, vertices, tris, name, k as nat).len() + i]
            == mesh_lines(meshes, vertices, tris, k)[i],
    decreases n,
{
    let m = (n - 1) as nat;
    if k < m {
        lemma_obj_lines_mesh(meshes, vertices, tris, name, m, k, i);
    }
}

/// The decimal digits of `d`, written `d/d/d` as a face names a vertex.
pub open spec fn triple_ref(d: nat) -> Seq<u8> {
    decimal(d) + "/".spec_bytes() + decimal(d) + "/".spec_bytes() + decimal(d)
}

/// In the `obj` lines of a model, mesh `k` gives, right after the lines of
/// the meshes before it: its group line, its material line, then for its
/// `j`-th vertex (vertex `verts_before(k) + j` of the model) a position with
/// that vertex's (x negated, y, z), texture coordinates (u, v) and a normal
/// (nx, ny, nz), in this order, and then for its `j`-th triangle (triangle
/// `tris_before(k) + j`) a face line naming the three vertices by their
/// 1-based numbers in the model, `1 + verts_before(k) + index`.
pub proof fn lemma_obj_mesh_layout(
    meshes: Seq<MeshEntry>,
    vertices: Seq<Vertex>,
    tris: Seq<[u16; 3]>,
    name: Seq<char>,
    k: int,
)
    requires
        0 <= k < meshes.len(),
    ensures
        ({
            let lines = obj_lines(meshes, vertices, tris, name, meshes.len());
            let base = obj_lines(meshes, vertices, tris, name, k as nat).len() as int;
            let vs = verts_before(meshes, k);
            let vc = meshes[k].vertex_count as int;
            &&& lines[base] == ObjLineView::Text(
                "g ".spec_bytes() + encode_utf8(meshes[k].name@) + "\n".spec_bytes(),
            )
            &&& lines[base + 1] == ObjLineView::Text(
                "usemtl ".spec_bytes() + material_of(meshes[k].texture@) + "\n".spec_bytes(),
            )
            &&& forall|j: int|
                0 <= j < vc ==> {
                    let v = #[trigger] vertices[vs + j];
                    &&& lines[base + 2 + 3 * j] == ObjLineView::Position(v.x ^ SIGN_BIT, v.y, v.z)
                    &&& lines[base + 3 + 3 * j] == ObjLineView::TexCoord(v.u, v.v)
                    &&& lines[base + 4 + 3 * j] == ObjLineView::Normal(v.nx, v.ny, v.nz)
                }
            &&& forall|j: int|
                0 <= j < meshes[k].index_count ==> {
                    let t = #[trigger] tris[tris_before(meshes, k) + j];
                    lines[base + 2 + 3 * vc + j] == ObjLineView::Text(
                        "f ".spec_bytes() + triple_ref((1 + vs + t[0]) as nat) + " ".spec_bytes()
                            + triple_ref((1 + vs + t[1]) as nat) + " ".spec_bytes() + triple_ref(
                            (1 + vs + t[2]) as nat,
                        ) + "\n".spec_bytes(),
                    )
                }
        }),
{
    let n = meshes.len();
    let vs = verts_before(meshes, k);
    let vc = meshes[k].vertex_count as int;
    let ic = meshes[k].index_count as int;
    let ml = mesh_lines(meshes, vertices, tris, k);
    let vl = vertex_lines(vertices, vs, vc as nat);
    let fl = face_lines(tris, tris_before(meshes, k), vs, ic as nat);
    lemma_vertex_lines_len(vertices, vs, vc as nat);
    lemma_face_lines_len(tris, tris_before(meshes, k), vs, ic as nat);
    assert(ml.len() == 2 + 3 * vc + ic);
    lemma_obj_lines_mesh(meshes, vertices, tris, name, n, k, 0);
    lemma_obj_lines_mesh(meshes, vertices, tris, name, n, k, 1);
    assert forall|j: int| 0 <= j < vc implies {
        let v = #[trigger] vertices[vs + j];
        let lines = obj_lines(meshes, vertices, tris, name, n);
        let base = obj_lines(meshes, vertices, tris, name, k as nat).len() as int;
        &&& lines[base + 2 + 3 * j] == ObjLineView::Position(v.x ^ SIGN_BIT, v.y, v.z)
        &&& lines[base + 3 + 3 * j] == ObjLineView::TexCoord(v.u, v.v)
        &&& lines[base + 4 + 3 * j] == ObjLineView::Normal(v.nx, v.ny, v.nz)
    } by {
        lemma_vertex_lines_index(vertices, vs, vc as nat, j);
        lemma_obj_lines_mesh(meshes, vertices, tris, name, n, k, 2 + 3 * j);
        lemma_obj_lines_mesh(meshes, vertices, tris, name, n, k, 3 + 3 * j);
        lemma_obj_lines_mesh(meshes, vertices, tris, name, n, k, 4 + 3 * j);
        assert(ml[2 + 3 * j] == vl[3 * j]);
        assert(ml[3 + 3 * j] == vl[3 * j + 1]);
        assert(ml[4 + 3 * j] == vl[3 * j + 2]);
    }
    assert forall|j: int| 0 <= j < ic implies {
        let t = #[trigger] tris[tris_before(meshes, k) + j];
        let lines = obj_lines(meshes, vertices, tris, name, n);
        let base = obj_lines(meshes, vertices, tris, name, k as nat).len() as int;
        lines[base + 2 + 3 * vc + j] == ObjLineView::Text(
            "f ".spec_bytes() + triple_ref((1 + vs + t[0]) as nat) + " ".spec_bytes()
                + triple_ref((1 + vs + t[1]) as nat) + " ".spec_bytes() + triple_ref(
                (1 + vs + t[2]) as nat,
            ) + "\n".spec_bytes(),
        )
    } by {
        lemma_face_lines_index(tris, tris_before(meshes, k), vs, ic as nat, j);
        lemma_obj_lines_mesh(meshes, vertices, tris, name, n, k, 2 + 3 * vc + j);
        assert(ml[2 + 3 * vc + j] == fl[j]);
    }
}

/// How a face names vertex `x` of a mesh whose vertices begin at
/// `vert_start`.
fn face_ref_bytes(vert_start: usize, x: u16) -> (out: Vec<u8>)
    ensures
        out@ == face_ref(vert_start as int, x),
{
    let d = decimal_bytes(1 + vert_start as u128 + x as u128);
    let mut out: Vec<u8> = Vec::new();
    push_all(&mut out, d.as_slice());
    push_all(&mut out, "/".as_bytes());
    push_all(&mut out, d.as_slice());
    push_all(&mut out, "/".as_bytes());
    push_all(&mut out, d.as_slice());
    out
}

impl Model {
    /// The `obj` geometry of the model, called `name`: a reference to its
    /// material library, then for each mesh its group, its material, the
    /// lines of the vertices it owns and its faces. Meshes own consecutive
    /// runs of vertices and triangles, in table order.
    pub fn to_obj(&self, name: &str) -> (out: Vec<ObjLine>)
        requires
            verts_before(self.mesh_entries@, self.mesh_entries@.len() as int)
                <= self.vertices@.len(),
            tris_before(self.mesh_entries@, self.mesh_entries@.len() as int) <= self.indices@.len(),
        ensures
            out@.map_values(|l: ObjLine| l@) == obj_lines(
                self.mesh_entries@,
                self.vertices@,
                self.indices@,
                name@,
                self.mesh_entries@.len(),
            ),
    {
        let ghost meshes = self.mesh_entries@;
        let ghost n = meshes.len() as int;
        let mut out: Vec<ObjLine> = Vec::new();
        let mut head: Vec<u8> = Vec::new();
        push_all(&mut head, "mtllib ".as_bytes());
        push_all(&mut head, name.as_bytes());
        push_all(&mut head, ".mtl\n".as_bytes());
        out.push(ObjLine::Text(head));
        assert(out@.map_values(|l: ObjLine| l@) =~= obj_lines(
            meshes,
            self.vertices@,
            self.indices@,
            name@,
            0,
        ));
        let mut vert_start: usize = 0;
        let mut index_start: usize = 0;
        let mut k: usize = 0;
        while k < self.mesh_entries.len()
            invariant
                meshes == self.mesh_entries@,
                n == meshes.len(),
                verts_before(meshes, n) <= self.vertices@.len(),
                tris_before(meshes, n) <= self.indices@.len(),
                k <= n,
                vert_start == verts_before(meshes, k as int),
                index_start == tris_before(meshes, k as int),
                out@.map_values(|l: ObjLine| l@) == obj_lines(
                    meshes,
                    self.vertices@,
                    self.indices@,
                    name@,
                    k as nat,
                ),
            decreases n - k,
        {
            proof {
                lemma_before_mono(meshes, k + 1, n);
            }
            let mesh = &self.mesh_entries[k];
            assert(vert_start + mesh.vertex_count <= self.vertices.len());
            assert(index_start + mesh.index_count <= self.indices.len());
            let ghost before = out@.map_values(|l: ObjLine| l@);
            let mut group: Vec<u8> = Vec::new();
            push_all(&mut group, "g ".as_bytes());
            push_all(&mut group, mesh.name.as_str().as_bytes());
            push_all(&mut group, "\n".as_bytes());
            out.push(ObjLine::Text(group));
            let texture = mesh.texture.as_str().as_bytes();
            let mut usemtl: Vec<u8> = Vec::new();
            push_all(&mut usemtl, "usemtl ".as_bytes());
            if texture.len() == 0 {
                push_all(&mut usemtl, "_Default".as_bytes());
            } else {
                push_all(&mut usemtl, texture);
            }
            push_all(&mut usemtl, "\n".as_bytes());
            out.push(ObjLine::Text(usemtl));
            let ghost head2 = out@.map_values(|l: ObjLine| l@);
            assert(head2 =~= before + seq![
                ObjLineView::Text("g ".spec_bytes() + encode_utf8(mesh.name@) + "\n".spec_bytes()),
                ObjLineView::Text(
                    "usemtl ".spec_bytes() + material_of(mesh.texture@) + "\n".spec_bytes(),
                ),
            ]);
            let mut j: usize = 0;
            while j < mesh.vertex_count as usize
                invariant
                    vert_start + mesh.vertex_count <= self.vertices.len(),
                    k < n,
                    meshes == self.mesh_entries@,
                    *mesh == meshes[k as int],
                    vert_start == verts_before(meshes, k as int),
                    j <= mesh.vertex_count,
                    out@.map_values(|l: ObjLine| l@) == head2 + vertex_lines(
                        self.vertices@,
                        vert_start as int,
                        j as nat,
                    ),
                decreases mesh.vertex_count - j,
            {
                let v = &self.vertices[vert_start + j];
                let ghost prev = out@;
                out.push(ObjLine::Position(v.x ^ SIGN_BIT, v.y, v.z));
                out.push(ObjLine::TexCoord(v.u, v.v));
                out.push(ObjLine::Normal(v.nx, v.ny, v.nz));
                assert(out@.map_values(|l: ObjLine| l@) =~= prev.map_values(|l: ObjLine| l@) + seq![
                    ObjLineView::Position(v.x ^ SIGN_BIT, v.y, v.z),
                    ObjLineView::TexCoord(v.u, v.v),
                    ObjLineView::Normal(v.nx, v.ny, v.nz),
                ]);
                assert(*v == self.vertices@[vert_start + j]);
                j = j + 1;
                assert(out@.map_values(|l: ObjLine| l@) =~= head2 + vertex_lines(
                    self.vertices@,
                    vert_start as int,
                    j as nat,
                ));
            }
            let ghost head3 = out@.map_values(|l: ObjLine| l@);
            let mut j: usize = 0;
            while j < mesh.index_count as usize
                invariant
                    index_start + mesh.index_count <= self.indices.len(),
                    k < n,
                    meshes == self.mesh_entries@,
                    *mesh == meshes[k as int],
                    index_start == tris_before(meshes, k as int),
                    j <= mesh.index_count,
                    out@.map_values(|l: ObjLine| l@) == head3 + face_lines(
                        self.indices@,
                        index_start as int,
                        vert_start as int,
                        j as nat,
                    ),
                decreases mesh.index_count - j,
            {
                let tri = self.indices[index_start + j];
                let mut line: Vec<u8> = Vec::new();
                push_all(&mut line, "f ".as_bytes());
                push_all(&mut line, face_ref_bytes(vert_start, tri[0]).as_slice());
                push_all(&mut line, " ".as_bytes());
                push_all(&mut line, face_ref_bytes(vert_start, tri[1]).as_slice());
                push_all(&mut line, " ".as_bytes());
                push_all(&mut line, face_ref_bytes(vert_start, tri[2]).as_slice());
                push_all(&mut line, "\n".as_bytes());
                let ghost prev = out@;
                let ghost text = line@;
                out.push(ObjLine::Text(line));
                assert(out@.map_values(|l: ObjLine| l@) =~= prev.map_values(|l: ObjLine| l@) + seq![
                    ObjLineView::Text(text),
                ]);
                assert(tri == self.indices@[index_start + j]);
                j = j + 1;
                assert(out@.map_values(|l: ObjLine| l@) =~= head3 + face_lines(
                    self.indices@,
                    index_start as int,
                    vert_start as int,
                    j as nat,
                ));
            }
            assert(out@.map_values(|l: ObjLine| l@) =~= obj_lines(
                meshes,
                self.vertices@,
                self.indices@,
                name@,
                (k + 1) as nat,
            ));
            vert_start = vert_start + mesh.vertex_count as usize;
            index_start = index_start + mesh.index_count as usize;
            k = k + 1;
        }
        out
    }

    /// Whether `to_mtl` accepts this model: every texture name is empty or
    /// can lose its four-byte extension.
    pub fn textures_ok(&self) -> (b: bool)
        ensures
            b == forall|k: int|
                0 <= k < self.mesh_entries@.len() ==> texture_name_ok(
                    encode_utf8((#[trigger] self.mesh_entries@[k]).texture@),
                ),
    {
        let mut k: usize = 0;
        while k < self.mesh_entries.len()
            invariant
                k <= self.mesh_entries@.len(),
                forall|j: int|
                    0 <= j < k ==> texture_name_ok(
                        encode_utf8((#[trigger] self.mesh_entries@[j]).texture@),
                    ),
            decreases self.mesh_entries@.len() - k,
        {
            let texture = self.mesh_entries[k].texture.as_str();
            let len = texture.as_bytes().len();
            if len != 0 && (len < 4 || !texture.is_char_boundary(len - 4)) {
                return false;
            }
            k = k + 1;
        }
        true
    }

    /// Whether `to_obj` accepts this model: the meshes own no more vertices
    /// and triangles than the model holds.
    pub fn ranges_ok(&self) -> (b: bool)
        ensures
            b == (verts_before(self.mesh_entries@, self.mesh_entries@.len() as int)
                <= self.vertices@.len() && tris_before(
                self.mesh_entries@,
                self.mesh_entries@.len() as int,
            ) <= self.indices@.len()),
    {
        let mut verts: u128 = 0;
        let mut tris: u128 = 0;
        let mut k: usize = 0;
        while k < self.mesh_entries.len()
            invariant
                k <= self.mesh_entries@.len(),
                verts == verts_before(self.mesh_entries@, k as int),
                tris == tris_before(self.mesh_entries@, k as int),
                verts <= k * 65535,
                tris <= k * 65535,
            decreases self.mesh_entries@.len() - k,
        {
            assert(k * 65535 + 65535 <= 65535 * 0x1_0000_0000_0000_0000) by (nonlinear_arith)
                requires
                    k < 0x1_0000_0000_0000_0000,
            ;
            verts = verts + self.mesh_entries[k].vertex_count as u128;
            tris = tris + self.mesh_entries[k].index_count as u128;
            k = k + 1;
        }
        proof {
            lemma_before_mono(self.mesh_entries@, k as int, k as int);
        }
        verts <= self.vertices.len() as u128 && tris <= self.indices.len() as u128
    }

    /// The `mtl` material definitions of the model.
    pub fn to_mtl(&self) -> (out: Vec<u8>)
        requires
            forall|k: int|
                0 <= k < self.mesh_entries@.len() ==> texture_name_ok(
                    encode_utf8((#[trigger] self.mesh_entries@[k]).texture@),
                ),
        ensures
            out@ == mtl_text(self.mesh_entries@, self.mesh_entries@.len()),
    {
        let mut out: Vec<u8> = Vec::new();
        push_all(&mut out, "newmtl ".as_bytes());
        push_all(&mut out, "_Default".as_bytes());
        push_all(&mut out, "\n".as_bytes());
        let mut k: usize = 0;
        while k < self.mesh_entries.len()
            invariant
                k <= self.mesh_entries@.len(),
                forall|j: int|
                    0 <= j < self.mesh_entries@.len() ==> texture_name_ok(
                        encode_utf8((#[trigger] self.mesh_entries@[j]).texture@),
                    ),
                out@ == mtl_text(self.mesh_entries@, k as nat),
            decreases self.mesh_entries@.len() - k,
        {
            let texture = self.mesh_entries[k].texture.as_str().as_bytes();
            assert(texture_name_ok(encode_utf8(self.mesh_entries@[k as int].texture@)));
            if texture.len() != 0 {
                push_all(&mut out, "newmtl ".as_bytes());
                push_all(&mut out, texture);
                push_all(&mut out, "\n".as_bytes());
                push_all(&mut out, "map_Kd ".as_bytes());
                push_all(&mut out, &texture[0..texture.len() - 4]);
                push_all(&mut out, ".btf.png".as_bytes());
                push_all(&mut out, "\n".as_bytes());
            }
            k = k + 1;
            assert(out@ =~= mtl_text(self.mesh_entries@, k as nat));
        }
        out
    }

    /// Reads a model out of `raw`; `None` where `raw` does not hold a whole
    /// model (`geo_loadable`).
    pub fn try_load(raw: &[u8]) -> (r: Option<Model>)
        ensures
            r is Some <==> geo_loadable(raw@),
            r matches Some(m) ==> geo_decoded(raw@, m),
    {
        let ghost s = raw@;
        if raw.len() < 24 {
            return None;
        }
        let mut input = ArchiveCursor { data: raw, pos: 0 };
        let magic = input.read_slice(4);
        if !(magic[0] == 66 && magic[1] == 71 && magic[2] == 71 && magic[3] == 70) {
            assert(s.subrange(0, 4) != geo_magic()) by {
                if s.subrange(0, 4) == geo_magic() {
                    assert(magic@[0] == geo_magic()[0]);
                    assert(magic@[1] == geo_magic()[1]);
                    assert(magic@[2] == geo_magic()[2]);
                    assert(magic@[3] == geo_magic()[3]);
                }
            }
            return None;
        }
        assert(s.subrange(0, 4) =~= geo_magic());
        let unk1 = input.read_u32();
        let idx_total = input.read_u32();
        let vert_total = input.read_u32();
        let mesh_count = input.read_u32();
        let unk2 = if unk1 != 1 {
            input.read_u32()
        } else {
            0
        };
        assert(input.pos == geo_header_len(s));
        proof {
            lemma_le_u32_range(s, 8);
            lemma_le_u32_range(s, 12);
            lemma_le_u32_range(s, 16);
        }
        let end: u64 = input.pos as u64 + 48 + 112 * (mesh_count as u64) + 6 * (idx_total as u64) + 36
            * (vert_total as u64);
        assert(end == geo_end(s));
        if end > raw.len() as u64 {
            return None;
        }
        let bbox = [
            read_corner(&mut input),
            read_corner(&mut input),
            read_corner(&mut input),
            read_corner(&mut input),
        ];
        let mut mesh_entries: Vec<MeshEntry> = Vec::new();
        let mut i: u32 = 0;
        while i < mesh_count
            invariant
                input.data == raw,
                s == raw@,
                mesh_count == le_u32(s, 16),
                0 <= le_u32(s, 8),
                0 <= le_u32(s, 12),
                geo_end(s) <= raw.len(),
                i <= mesh_count,
                input.pos == geo_mesh_start(s) + MESH_ENTRY_LEN * i,
                mesh_entries@.len() == i,
                forall|j: int|
                    0 <= j < i ==> mesh_at(
                        s,
                        geo_mesh_start(s) + MESH_ENTRY_LEN * j,
                        #[trigger] mesh_entries@[j],
                    ),
                forall|j: int|
                    0 <= j < i ==> #[trigger] s[geo_mesh_start(s) + MESH_ENTRY_LEN * j + 89] == 0,
            decreases mesh_count - i,
        {
            assert(MESH_ENTRY_LEN * i + MESH_ENTRY_LEN <= MESH_ENTRY_LEN * mesh_count) by (nonlinear_arith)
                requires
                    i < mesh_count,
            ;
            assert(geo_index_start(s) <= geo_end(s));
            assert(input.pos + MESH_ENTRY_LEN <= geo_index_start(s));
            if raw[input.pos + 89] != 0 {
                assert(!geo_loadable(s)) by {
                    assert(s[geo_mesh_start(s) + MESH_ENTRY_LEN * i + 89] != 0);
                }
                return None;
            }
            let mesh = read_mesh(&mut input);
            mesh_entries.push(mesh);
            i = i + 1;
        }
        let mut indices: Vec<[u16; 3]> = Vec::new();
        let mut i: u32 = 0;
        while i < idx_total
            invariant
                input.data == raw,
                s == raw@,
                idx_total == le_u32(s, 8),
                0 <= le_u32(s, 12),
                geo_end(s) <= raw.len(),
                i <= idx_total,
                input.pos == geo_index_start(s) + TRIANGLE_LEN * i,
                indices@.len() == i,
                forall|j: int|
                    0 <= j < i ==> triangle_at(
                        s,
                        geo_index_start(s) + TRIANGLE_LEN * j,
                        #[trigger] indices@[j],
                    ),
            decreases idx_total - i,
        {
            let a = input.read_u16();
            let b = input.read_u16();
            let c = input.read_u16();
            let t = [a, b, c];
            assert(t@ =~= seq![a, b, c]);
            indices.push(t);
            i = i + 1;
        }
        let mut vertices: Vec<Vertex> = Vec::new();
        let mut i: u32 = 0;
        while i < vert_total
            invariant
                input.data == raw,
                s == raw@,
                vert_total == le_u32(s, 12),
                geo_end(s) <= raw.len(),
                i <= vert_total,
                input.pos == geo_vertex_start(s) + VERTEX_LEN * i,
                vertices@.len() == i,
                forall|j: int|
                    0 <= j < i ==> vertex_at(
                        s,
                        geo_vertex_start(s) + VERTEX_LEN * j,
                        #[trigger] vertices@[j],
                    ),
            decreases vert_total - i,
        {
            let v = read_vertex(&mut input);
            vertices.push(v);
            i = i + 1;
        }
        let model = Model {
            unk1,
            idx_total,
            vert_total,
            mesh_count,
            unk2,
            bbox,
            mesh_entries,
            indices,
            vertices,
        };
        Some(model)
    }

    /// Reads the model that `raw` holds.
    pub fn load(raw: &[u8]) -> (m: Model)
        requires
            geo_loadable(raw@),
        ensures
            geo_decoded(raw@, m),
    {
        Self::try_load(raw).unwrap()
    }
}

} // verus!
