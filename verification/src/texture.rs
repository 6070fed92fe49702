//! `btf` textures: a header, an optional colour map and the image data of
//! every mip level, each level half the size of the one before.

use vstd::prelude::*;

use crate::reader::{le_u16, lemma_le_u16_range, ArchiveCursor};
use crate::text::push_all;

verus! {

/// The size of a `btf` header in bytes.
pub const HEADER_LEN: usize = 12;

/// The size of the colour map (256 RGB entries) of an 8-bit texture.
pub const COLORMAP_LEN: usize = 768;

/// `d` halved `i` times, rounding down.
pub open spec fn halved(d: int, i: nat) -> int
    decreases i,
{
    if i == 0 {
        d
    } else {
        halved(d, (i - 1) as nat) / 2
    }
}

/// How many images a texture holds: `mip_count` of them, but at least one.
pub open spec fn level_count(mip_count: int) -> int {
    if mip_count == 0 {
        1
    } else {
        mip_count
    }
}

/// The number of bytes of mip level `i`.
pub open spec fn level_size(bpp: int, width: int, height: int, i: nat) -> int {
    (bpp / 8) * halved(width, i) * halved(height, i)
}

/// The number of bytes of the first `n` mip levels together.
pub open spec fn levels_size(bpp: int, width: int, height: int, n: nat) -> int
    decreases n,
{
    if n == 0 {
        0
    } else {
        levels_size(bpp, width, height, (n - 1) as nat) + level_size(bpp, width, height, (n - 1) as nat)
    }
}

/// The abstract content of a texture.
pub struct TextureView {
    /// Image kind (the format documents only 2).
    pub kind: u16,
    pub height: u16,
    pub width: u16,
    /// Bits per pixel: 8 (colour map index), 24 (RGB) or 32 (RGBA).
    pub bpp: u16,
    /// Unknown header field, usually 256.
    pub unk1: u16,
    /// Number of mip levels; taken as 1 when `unk1` is not 256.
    pub mip_count: u16,
    /// The 256 RGB entries, three bytes each, of an 8-bit texture.
    pub colormap: Option<Seq<u8>>,
    /// The pixel data of each mip level, bottom row first.
    pub image: Seq<Seq<u8>>,
}

/// What makes the fields of a texture agree with each other.
pub open spec fn texture_wf(v: TextureView) -> bool {
    &&& v.bpp % 8 == 0
    &&& v.unk1 != 256 ==> v.mip_count == 1
    &&& (v.bpp == 8 <==> v.colormap is Some)
    &&& v.colormap matches Some(cm) ==> cm.len() == COLORMAP_LEN
    &&& v.image.len() == level_count(v.mip_count as int)
    &&& forall|i: int|
        0 <= i < v.image.len() ==> (#[trigger] v.image[i]).len() == level_size(
            v.bpp as int,
            v.width as int,
            v.height as int,
            i as nat,
        )
}

/// Bits per pixel named in the header of `s`.
pub open spec fn btf_bpp(s: Seq<u8>) -> int {
    le_u16(s, 6)
}

/// Width named in the header of `s`.
pub open spec fn btf_width(s: Seq<u8>) -> int {
    le_u16(s, 4)
}

/// Height named in the header of `s`.
pub open spec fn btf_height(s: Seq<u8>) -> int {
    le_u16(s, 2)
}

/// The mip count that is read from `s`: the header's, unless the unknown field
/// is not 256, in which case 1.
pub open spec fn btf_mip_count(s: Seq<u8>) -> int {
    if le_u16(s, 8) != 256 {
        1
    } else {
        le_u16(s, 10)
    }
}

/// Where the image data of `s` begins.
pub open spec fn btf_data_start(s: Seq<u8>) -> int {
    if btf_bpp(s) == 8 {
        HEADER_LEN + COLORMAP_LEN
    } else {
        HEADER_LEN as int
    }
}

/// Where the image data of `s` ends.
pub open spec fn btf_end(s: Seq<u8>) -> int {
    btf_data_start(s) + levels_size(
        btf_bpp(s),
        btf_width(s),
        btf_height(s),
        level_count(btf_mip_count(s)) as nat,
    )
}

/// Whether `s` holds a whole texture: a header whose bits per pixel are a
/// multiple of 8, every byte that header announces, and no byte after them
/// unless the unknown field is 0 (whose data is not fully understood).
pub open spec fn btf_loadable(s: Seq<u8>) -> bool {
    &&& s.len() >= HEADER_LEN
    &&& btf_bpp(s) % 8 == 0
    &&& btf_end(s) <= s.len()
    &&& (btf_end(s) == s.len() || le_u16(s, 8) == 0)
}

/// The texture that `s` holds.
pub open spec fn btf_decode(s: Seq<u8>) -> TextureView {
    let bpp = btf_bpp(s);
    let start = btf_data_start(s);
    TextureView {
        kind: le_u16(s, 0) as u16,
        height: btf_height(s) as u16,
        width: btf_width(s) as u16,
        bpp: bpp as u16,
        unk1: le_u16(s, 8) as u16,
        mip_count: btf_mip_count(s) as u16,
        colormap: if bpp == 8 {
            Some(s.subrange(HEADER_LEN as int, HEADER_LEN + COLORMAP_LEN))
        } else {
            None
        },
        image: Seq::new(
            level_count(btf_mip_count(s)) as nat,
            |i: int|
                s.subrange(
                    start + levels_size(bpp, btf_width(s), btf_height(s), i as nat),
                    start + levels_size(bpp, btf_width(s), btf_height(s), (i + 1) as nat),
                ),
        ),
    }
}

/// Halving never goes below zero nor above where it started.
pub proof fn lemma_halved_bounds(d: int, i: nat)
    requires
        0 <= d,
    ensures
        0 <= halved(d, i) <= d,
    decreases i,
{
    if i > 0 {
        lemma_halved_bounds(d, (i - 1) as nat);
    }
}

/// A mip level never has a negative size.
pub proof fn lemma_level_size_nonneg(bpp: int, width: int, height: int, i: nat)
    requires
        0 <= bpp,
        0 <= width,
        0 <= height,
    ensures
        0 <= level_size(bpp, width, height, i),
{
    lemma_halved_bounds(width, i);
    lemma_halved_bounds(height, i);
    let a = bpp / 8;
    let b = halved(width, i);
    let c = halved(height, i);
    assert(0 <= a * b * c) by (nonlinear_arith)
        requires
            0 <= a,
            0 <= b,
            0 <= c,
    ;
}

/// More mip levels never take fewer bytes.
pub proof fn lemma_levels_size_mono(bpp: int, width: int, height: int, i: nat, n: nat)
    requires
        0 <= bpp,
        0 <= width,
        0 <= height,
        i <= n,
    ensures
        0 <= levels_size(bpp, width, height, i) <= levels_size(bpp, width, height, n),
    decreases n,
{
    if n > 0 {
        lemma_level_size_nonneg(bpp, width, height, (n - 1) as nat);
        if i < n {
            lemma_levels_size_mono(bpp, width, height, i, (n - 1) as nat);
        } else {
            lemma_levels_size_mono(bpp, width, height, (n - 1) as nat, (n - 1) as nat);
        }
    }
}

/// Whatever `btf_loadable` admits decodes into a consistent texture.
pub proof fn lemma_decode_wf(s: Seq<u8>)
    requires
        btf_loadable(s),
    ensures
        texture_wf(btf_decode(s)),
{
    let v = btf_decode(s);
    lemma_le_u16_range(s, 2);
    lemma_le_u16_range(s, 4);
    lemma_le_u16_range(s, 6);
    lemma_le_u16_range(s, 8);
    lemma_le_u16_range(s, 10);
    let n = level_count(btf_mip_count(s)) as nat;
    assert forall|i: int| 0 <= i < v.image.len() implies (#[trigger] v.image[i]).len() == level_size(
        v.bpp as int,
        v.width as int,
        v.height as int,
        i as nat,
    ) by {
        lemma_levels_size_mono(btf_bpp(s), btf_width(s), btf_height(s), i as nat, (i + 1) as nat);
        lemma_levels_size_mono(btf_bpp(s), btf_width(s), btf_height(s), (i + 1) as nat, n);
    }
    lemma_levels_size_mono(btf_bpp(s), btf_width(s), btf_height(s), 0, n);
}

/// The two little-endian bytes of `x`.
pub open spec fn u16_bytes(x: u16) -> Seq<u8> {
    seq![(x % 256) as u8, (x / 256) as u8]
}

/// The `btf` bytes of a texture: the header, the colour map if any, then the
/// pixel data of each level in turn.
pub open spec fn btf_encode(v: TextureView) -> Seq<u8> {
    u16_bytes(v.kind) + u16_bytes(v.height) + u16_bytes(v.width) + u16_bytes(v.bpp) + u16_bytes(
        v.unk1,
    ) + u16_bytes(v.mip_count) + match v.colormap {
        Some(cm) => cm,
        None => Seq::empty(),
    } + v.image.flatten_alt()
}

/// Level `i` of `levels` stands in their concatenation right after the
/// levels before it.
proof fn lemma_flatten_level(levels: Seq<Seq<u8>>, bpp: int, width: int, height: int, i: int)
    requires
        0 <= bpp,
        0 <= width,
        0 <= height,
        0 <= i < levels.len(),
        forall|j: int|
            0 <= j < levels.len() ==> (#[trigger] levels[j]).len() == level_size(
                bpp,
                width,
                height,
                j as nat,
            ),
    ensures
        levels.flatten_alt().len() == levels_size(bpp, width, height, levels.len()),
        levels.flatten_alt().subrange(
            levels_size(bpp, width, height, i as nat),
            levels_size(bpp, width, height, (i + 1) as nat),
        ) == levels[i],
    decreases levels.len(),
{
    let n = levels.len();
    let init = levels.drop_last();
    lemma_flatten_len(levels, bpp, width, height);
    assert forall|j: int| 0 <= j < init.len() implies (#[trigger] init[j]).len() == level_size(
        bpp,
        width,
        height,
        j as nat,
    ) by {
        assert(init[j] == levels[j]);
    }
    lemma_flatten_len(init, bpp, width, height);
    assert(levels.flatten_alt() == init.flatten_alt() + levels.last());
    lemma_levels_size_mono(bpp, width, height, i as nat, (i + 1) as nat);
    if i < n - 1 {
        lemma_flatten_level(init, bpp, width, height, i);
        lemma_levels_size_mono(bpp, width, height, (i + 1) as nat, (n - 1) as nat);
        assert(levels.flatten_alt().subrange(
            levels_size(bpp, width, height, i as nat),
            levels_size(bpp, width, height, (i + 1) as nat),
        ) =~= init.flatten_alt().subrange(
            levels_size(bpp, width, height, i as nat),
            levels_size(bpp, width, height, (i + 1) as nat),
        ));
    } else {
        lemma_flatten_len(init, bpp, width, height);
        assert(levels.flatten_alt().subrange(
            levels_size(bpp, width, height, i as nat),
            levels_size(bpp, width, height, (i + 1) as nat),
        ) =~= levels[i]);
    }
}

/// Levels of the sizes that `level_size` gives take `levels_size` bytes.
proof fn lemma_flatten_len(levels: Seq<Seq<u8>>, bpp: int, width: int, height: int)
    requires
        forall|j: int|
            0 <= j < levels.len() ==> (#[trigger] levels[j]).len() == level_size(
                bpp,
                width,
                height,
                j as nat,
            ),
    ensures
        levels.flatten_alt().len() == levels_size(bpp, width, height, levels.len()),
    decreases levels.len(),
{
    if levels.len() > 0 {
        let init = levels.drop_last();
        assert forall|j: int| 0 <= j < init.len() implies (#[trigger] init[j]).len() == level_size(
            bpp,
            width,
            height,
            j as nat,
        ) by {
            assert(init[j] == levels[j]);
        }
        lemma_flatten_len(init, bpp, width, height);
    }
}

/// Encoding a consistent texture and reading it back gives the same texture.
pub proof fn lemma_decode_encode(v: TextureView)
    requires
        texture_wf(v),
    ensures
        btf_loadable(btf_encode(v)),
        btf_decode(btf_encode(v)) == v,
{
    let s = btf_encode(v);
    let cm = match v.colormap {
        Some(cm) => cm,
        None => Seq::<u8>::empty(),
    };
    let n = level_count(v.mip_count as int) as nat;
    lemma_flatten_len(v.image, v.bpp as int, v.width as int, v.height as int);
    assert(le_u16(s, 0) == v.kind);
    assert(le_u16(s, 2) == v.height);
    assert(le_u16(s, 4) == v.width);
    assert(le_u16(s, 6) == v.bpp);
    assert(le_u16(s, 8) == v.unk1);
    assert(le_u16(s, 10) == v.mip_count);
    assert(btf_data_start(s) == HEADER_LEN + cm.len());
    assert(btf_end(s) == s.len());
    let d = btf_decode(s);
    let prefix = u16_bytes(v.kind) + u16_bytes(v.height) + u16_bytes(v.width) + u16_bytes(v.bpp)
        + u16_bytes(v.unk1) + u16_bytes(v.mip_count) + cm;
    let flat = v.image.flatten_alt();
    assert(s == prefix + flat);
    assert(prefix.len() == btf_data_start(s));
    assert(v.image.len() == n);
    if v.bpp == 8 {
        assert(s.subrange(HEADER_LEN as int, HEADER_LEN + COLORMAP_LEN) =~= cm);
    }
    assert forall|i: int| 0 <= i < n implies #[trigger] d.image[i] == v.image[i] by {
        lemma_flatten_level(v.image, v.bpp as int, v.width as int, v.height as int, i);
        lemma_levels_size_mono(v.bpp as int, v.width as int, v.height as int, (i + 1) as nat, n);
        lemma_levels_size_mono(v.bpp as int, v.width as int, v.height as int, i as nat, (i + 1) as nat);
        assert(s.subrange(
            btf_data_start(s) + levels_size(v.bpp as int, v.width as int, v.height as int, i as nat),
            btf_data_start(s) + levels_size(v.bpp as int, v.width as int, v.height as int, (i + 1) as nat),
        ) =~= v.image.flatten_alt().subrange(
            levels_size(v.bpp as int, v.width as int, v.height as int, i as nat),
            levels_size(v.bpp as int, v.width as int, v.height as int, (i + 1) as nat),
        ));
    }
    assert(d.image =~= v.image);
}

/// The level data that `btf_decode` cuts out of `s`, put back together, is
/// the run of bytes it was cut from.
proof fn lemma_flatten_chunks(s: Seq<u8>, start: int, bpp: int, width: int, height: int, k: nat)
    requires
        0 <= start,
        0 <= bpp,
        0 <= width,
        0 <= height,
        start + levels_size(bpp, width, height, k) <= s.len(),
    ensures
        Seq::new(
            k,
            |i: int|
                s.subrange(
                    start + levels_size(bpp, width, height, i as nat),
                    start + levels_size(bpp, width, height, (i + 1) as nat),
                ),
        ).flatten_alt() == s.subrange(start, start + levels_size(bpp, width, height, k)),
    decreases k,
{
    let chunks = Seq::new(
        k,
        |i: int|
            s.subrange(
                start + levels_size(bpp, width, height, i as nat),
                start + levels_size(bpp, width, height, (i + 1) as nat),
            ),
    );
    if k == 0 {
        assert(chunks.flatten_alt() =~= s.subrange(start, start));
    } else {
        let init = Seq::new(
            (k - 1) as nat,
            |i: int|
                s.subrange(
                    start + levels_size(bpp, width, height, i as nat),
                    start + levels_size(bpp, width, height, (i + 1) as nat),
                ),
        );
        assert(chunks.drop_last() =~= init);
        lemma_levels_size_mono(bpp, width, height, (k - 1) as nat, k);
        lemma_flatten_chunks(s, start, bpp, width, height, (k - 1) as nat);
        assert(chunks.flatten_alt() =~= s.subrange(start, start + levels_size(bpp, width, height, k)));
    }
}

/// Reading a texture and encoding it again gives back the bytes it was read
/// from, unless the mip count was overridden (unknown field not 256 and a
/// header mip count other than 1).
pub proof fn lemma_encode_decode(s: Seq<u8>)
    requires
        btf_loadable(s),
        le_u16(s, 8) == 256 || le_u16(s, 10) == 1,
    ensures
        btf_encode(btf_decode(s)) == s.subrange(0, btf_end(s)),
{
    let v = btf_decode(s);
    let n = level_count(btf_mip_count(s)) as nat;
    lemma_decode_wf(s);
    let start = btf_data_start(s);
    lemma_flatten_chunks(s, start, btf_bpp(s), btf_width(s), btf_height(s), n);
    assert(v.image.flatten_alt() == s.subrange(start, btf_end(s)));
    lemma_levels_size_mono(btf_bpp(s), btf_width(s), btf_height(s), 0, n);
    lemma_le_u16_range(s, 0);
    lemma_le_u16_range(s, 2);
    lemma_le_u16_range(s, 4);
    lemma_le_u16_range(s, 6);
    lemma_le_u16_range(s, 8);
    lemma_le_u16_range(s, 10);
    assert(u16_bytes(v.kind) =~= s.subrange(0, 2));
    assert(u16_bytes(v.height) =~= s.subrange(2, 4));
    assert(u16_bytes(v.width) =~= s.subrange(4, 6));
    assert(u16_bytes(v.bpp) =~= s.subrange(6, 8));
    assert(u16_bytes(v.unk1) =~= s.subrange(8, 10));
    assert(u16_bytes(v.mip_count) =~= s.subrange(10, 12));
    assert(btf_encode(v) =~= s.subrange(0, btf_end(s)));
}

/// The bytes of the PNG image that `image` (its default PNG encoder) makes of
/// an RGBA picture of `width` by `height` pixels, rows from the top.
pub uninterp spec fn png_rgba8(width: u32, height: u32, rgba: Seq<u8>) -> Seq<u8>;

/// Encodes an RGBA picture as PNG with `image::ImageBuffer::write_to`
/// (`ImageFormat::Png`). Trusted: the result is named `png_rgba8`. The
/// encoder refuses a zero width or height and the buffer must hold exactly
/// four bytes per pixel; `requires` leaves those inputs out.
#[verifier::external_body]
fn encode_png(width: u32, height: u32, rgba: Vec<u8>) -> (png: Vec<u8>)
    requires
        0 < width,
        0 < height,
        rgba@.len() == width * height * 4,
    ensures
        png@ == png_rgba8(width, height, rgba@),
{
    let mut png = Vec::new();
    let picture: image::RgbaImage = image::ImageBuffer::from_raw(width, height, rgba).unwrap();
    picture.write_to(&mut std::io::Cursor::new(&mut png), image::ImageFormat::Png).unwrap();
    png
}

/// Whether a texture can be turned into pictures: a known pixel format, and
/// no mip level that is zero pixels wide or high.
pub open spec fn renderable(v: TextureView) -> bool {
    &&& (v.bpp == 8 || v.bpp == 24 || v.bpp == 32)
    &&& forall|i: nat|
        i < level_count(v.mip_count as int) ==> 0 < #[trigger] halved(v.width as int, i) && 0
            < halved(v.height as int, i)
}

/// The RGBA value of pixel `(x, y)` of mip level `lvl` (`w` by `h` pixels),
/// with `y` counted from the top; the data holds the bottom row first.
pub open spec fn pixel_rgba(v: TextureView, lvl: int, w: int, h: int, x: int, y: int) -> Seq<u8> {
    let raw = v.image[lvl];
    let off = (v.bpp / 8) * ((h - 1 - y) * w + x);
    if v.bpp == 8 {
        let cm = v.colormap.unwrap();
        let k = raw[off] as int;
        seq![cm[3 * k], cm[3 * k + 1], cm[3 * k + 2], 255u8]
    } else if v.bpp == 24 {
        seq![raw[off], raw[off + 1], raw[off + 2], 255u8]
    } else {
        seq![raw[off], raw[off + 1], raw[off + 2], raw[off + 3]]
    }
}

/// The first `n` pixels of row `y` (from the top), as RGBA.
pub open spec fn row_rgba(v: TextureView, lvl: int, w: int, h: int, y: int, n: nat) -> Seq<u8>
    decreases n,
{
    if n == 0 {
        Seq::empty()
    } else {
        row_rgba(v, lvl, w, h, y, (n - 1) as nat) + pixel_rgba(v, lvl, w, h, n - 1, y)
    }
}

/// The first `n` rows (from the top) of mip level `lvl`, as RGBA.
pub open spec fn level_rgba(v: TextureView, lvl: int, w: int, h: int, n: nat) -> Seq<u8>
    decreases n,
{
    if n == 0 {
        Seq::empty()
    } else {
        level_rgba(v, lvl, w, h, (n - 1) as nat) + row_rgba(v, lvl, w, h, n - 1, w as nat)
    }
}

/// The PNG image of mip level `i` of a texture.
pub open spec fn level_png(v: TextureView, i: int) -> Seq<u8> {
    let w = halved(v.width as int, i as nat);
    let h = halved(v.height as int, i as nat);
    png_rgba8(w as u32, h as u32, level_rgba(v, i, w, h, h as nat))
}

/// A row of `n` pixels takes `4 * n` bytes.
proof fn lemma_row_rgba_len(v: TextureView, lvl: int, w: int, h: int, y: int, n: nat)
    ensures
        row_rgba(v, lvl, w, h, y, n).len() == 4 * n,
    decreases n,
{
    if n > 0 {
        lemma_row_rgba_len(v, lvl, w, h, y, (n - 1) as nat);
    }
}

/// `n` rows of `w` pixels take `n * w * 4` bytes.
proof fn lemma_level_rgba_len(v: TextureView, lvl: int, w: int, h: int, n: nat)
    requires
        0 <= w,
    ensures
        level_rgba(v, lvl, w, h, n).len() == n * w * 4,
    decreases n,
{
    if n > 0 {
        lemma_level_rgba_len(v, lvl, w, h, (n - 1) as nat);
        lemma_row_rgba_len(v, lvl, w, h, n - 1, w as nat);
        let m = n - 1;
        assert(m * w * 4 + 4 * w == (m + 1) * w * 4) by (nonlinear_arith);
        assert(level_rgba(v, lvl, w, h, n).len() == m * w * 4 + 4 * w);
    } else {
        assert(n * w * 4 == 0) by (nonlinear_arith)
            requires
                n == 0,
        ;
    }
}

/// Byte `c` of pixel `x` in a row of RGBA pixels.
proof fn lemma_row_rgba_index(v: TextureView, lvl: int, w: int, h: int, y: int, n: nat, x: int, c: int)
    requires
        0 <= x < n,
        0 <= c < 4,
    ensures
        row_rgba(v, lvl, w, h, y, n)[4 * x + c] == pixel_rgba(v, lvl, w, h, x, y)[c],
    decreases n,
{
    lemma_row_rgba_len(v, lvl, w, h, y, (n - 1) as nat);
    if x < n - 1 {
        lemma_row_rgba_index(v, lvl, w, h, y, (n - 1) as nat, x, c);
    }
}

/// Byte `c` of pixel `(x, y)` in the first `n` rows of a picture.
proof fn lemma_level_rgba_index(v: TextureView, lvl: int, w: int, h: int, n: nat, x: int, y: int, c: int)
    requires
        0 <= x < w,
        0 <= y < n,
        0 <= c < 4,
    ensures
        level_rgba(v, lvl, w, h, n)[4 * (y * w + x) + c] == pixel_rgba(v, lvl, w, h, x, y)[c],
    decreases n,
{
    let m = (n - 1) as nat;
    lemma_level_rgba_len(v, lvl, w, h, m);
    lemma_row_rgba_len(v, lvl, w, h, n - 1, w as nat);
    if y < m {
        lemma_level_rgba_index(v, lvl, w, h, m, x, y, c);
        assert(4 * (y * w + x) + c < m * w * 4) by (nonlinear_arith)
            requires
                0 <= y < m,
                0 <= x < w,
                0 <= c < 4,
        ;
    } else {
        lemma_row_rgba_index(v, lvl, w, h, y, w as nat, x, c);
        assert(4 * (y * w + x) + c == m * w * 4 + (4 * x + c)) by (nonlinear_arith)
            requires
                y == m,
        ;
    }
}

/// The picture that `to_image` hands to the PNG encoder for mip level `lvl`
/// (`w` by `h` pixels): four bytes per pixel, rows from the top, and pixel
/// `(x, y)` taken from stored pixel `(h - 1 - y) * w + x`, since the data
/// holds the bottom row first, for every pixel format. An 8-bit pixel is
/// the colour-map entry its byte names, opaque; a 24-bit pixel is its three
/// bytes, opaque; a 32-bit pixel is its four bytes.
pub proof fn lemma_picture_pixel(v: TextureView, lvl: int, x: int, y: int, c: int)
    requires
        texture_wf(v),
        renderable(v),
        0 <= lvl < v.image.len(),
        0 <= x < halved(v.width as int, lvl as nat),
        0 <= y < halved(v.height as int, lvl as nat),
        0 <= c < 4,
    ensures
        ({
            let w = halved(v.width as int, lvl as nat);
            let h = halved(v.height as int, lvl as nat);
            let picture = level_rgba(v, lvl, w, h, h as nat);
            let raw = v.image[lvl];
            let p = (h - 1 - y) * w + x;
            &&& picture.len() == h * w * 4
            &&& v.bpp == 8 && c < 3 ==> picture[4 * (y * w + x) + c] == v.colormap.unwrap()[3
                * raw[p] + c]
            &&& v.bpp == 24 && c < 3 ==> picture[4 * (y * w + x) + c] == raw[3 * p + c]
            &&& (v.bpp == 8 || v.bpp == 24) && c == 3 ==> picture[4 * (y * w + x) + c] == 255
            &&& v.bpp == 32 ==> picture[4 * (y * w + x) + c] == raw[4 * p + c]
        }),
{
    let w = halved(v.width as int, lvl as nat);
    let h = halved(v.height as int, lvl as nat);
    lemma_halved_bounds(v.width as int, lvl as nat);
    lemma_level_rgba_len(v, lvl, w, h, h as nat);
    lemma_level_rgba_index(v, lvl, w, h, h as nat, x, y, c);
    let p = (h - 1 - y) * w + x;
    assert((v.bpp / 8) * p == (v.bpp / 8) * ((h - 1 - y) * w + x));
    if v.bpp == 8 {
        assert(1 * p == p);
    } else if v.bpp == 24 {
        assert((v.bpp / 8) * p == 3 * p);
    } else {
        assert((v.bpp / 8) * p == 4 * p);
    }
}

/// What `image` decodes a PNG file into: width, height and the RGBA
/// bytes of its pixels, rows from the top; `None` where it is no PNG it
/// can read.
pub uninterp spec fn png_rgba8_decoded(png: Seq<u8>) -> Option<(u32, u32, Seq<u8>)>;

/// Decodes a PNG file with `image::load_from_memory_with_format`
/// (`ImageFormat::Png`) and converts it to 8-bit RGBA (`into_rgba8`).
/// Trusted: the result is named `png_rgba8_decoded`; an `ImageBuffer` holds
/// four bytes per pixel, which the second clause states.
#[verifier::external_body]
fn decode_png(png: &[u8]) -> (r: Option<(u32, u32, Vec<u8>)>)
    ensures
        match r {
            Some((w, h, px)) => png_rgba8_decoded(png@) == Some((w, h, px@)) && px@.len() == w * h
                * 4,
            None => png_rgba8_decoded(png@) is None,
        },
{
    match image::load_from_memory_with_format(png, image::ImageFormat::Png) {
        Ok(picture) => {
            let rgba = picture.into_rgba8();
            Some((rgba.width(), rgba.height(), rgba.into_raw()))
        },
        Err(_) => None,
    }
}

/// The first `n` rows from the bottom of an RGBA picture `w` pixels wide and
/// `h` high whose rows are stored from the top.
pub open spec fn flipped_rows(px: Seq<u8>, w: int, h: int, n: nat) -> Seq<u8>
    decreases n,
{
    if n == 0 {
        Seq::empty()
    } else {
        flipped_rows(px, w, h, (n - 1) as nat) + px.subrange((h - n) * w * 4, (h - n) * w * 4 + w * 4)
    }
}

/// The first `n` pixels of row `y` of the half-size copy of a 32-bit level
/// `w` pixels wide: each takes the pixel at twice its coordinates.
pub open spec fn half_row(prev: Seq<u8>, w: int, y: int, n: nat) -> Seq<u8>
    decreases n,
{
    if n == 0 {
        Seq::empty()
    } else {
        let o = (2 * y * w + 2 * (n - 1)) * 4;
        half_row(prev, w, y, (n - 1) as nat) + prev.subrange(o, o + 4)
    }
}

/// The first `n` rows of the half-size copy of a 32-bit level `w` pixels
/// wide.
pub open spec fn half_level(prev: Seq<u8>, w: int, n: nat) -> Seq<u8>
    decreases n,
{
    if n == 0 {
        Seq::empty()
    } else {
        half_level(prev, w, (n - 1) as nat) + half_row(prev, w, n - 1, (w / 2) as nat)
    }
}

/// Mip level `i` of the texture made from an RGBA picture: the picture with
/// its rows bottom first, then each level a half-size copy of the one
/// before.
pub open spec fn png_level(w: int, h: int, px: Seq<u8>, i: nat) -> Seq<u8>
    decreases i,
{
    if i == 0 {
        flipped_rows(px, w, h, h as nat)
    } else {
        half_level(
            png_level(w, h, px, (i - 1) as nat),
            halved(w, (i - 1) as nat),
            halved(h, i) as nat,
        )
    }
}

/// The 32-bit texture, with `mip_count` levels, made from an RGBA picture.
pub open spec fn png_texture(w: u16, h: u16, px: Seq<u8>, mip_count: u16) -> TextureView {
    TextureView {
        kind: 2,
        height: h,
        width: w,
        bpp: 32,
        unk1: 256,
        mip_count,
        colormap: None,
        image: Seq::new(
            level_count(mip_count as int) as nat,
            |i: int| png_level(w as int, h as int, px, i as nat),
        ),
    }
}

/// The texture with `mip_count` mip levels that `Texture::from_png` makes
/// of the PNG file `raw`, if any.
pub open spec fn png_texture_of(raw: Seq<u8>, mip_count: u16) -> Option<TextureView> {
    match png_rgba8_decoded(raw) {
        Some((w, h, px)) => if w <= 65535 && h <= 65535 {
            Some(png_texture(w as u16, h as u16, px, mip_count))
        } else {
            None
        },
        None => None,
    }
}

/// `n` rows taken bottom first take `n * w * 4` bytes.
proof fn lemma_flipped_len(px: Seq<u8>, w: int, h: int, n: nat)
    requires
        0 <= w,
        n <= h,
        px.len() == w * h * 4,
    ensures
        flipped_rows(px, w, h, n).len() == n * w * 4,
    decreases n,
{
    if n > 0 {
        lemma_flipped_len(px, w, h, (n - 1) as nat);
        let m = n - 1;
        assert(0 <= (h - n) * w * 4 && (h - n) * w * 4 + w * 4 <= w * h * 4) by (nonlinear_arith)
            requires
                0 <= w,
                1 <= n <= h,
        ;
        assert(m * w * 4 + w * 4 == n * w * 4) by (nonlinear_arith)
            requires
                m == n - 1,
        ;
    } else {
        assert(n * w * 4 == 0) by (nonlinear_arith)
            requires
                n == 0,
        ;
    }
}

/// Byte `k` of row `r` (from the bottom) of the flipped picture is byte `k`
/// of row `h - 1 - r` (from the top) of the picture.
proof fn lemma_flipped_index(px: Seq<u8>, w: int, h: int, n: nat, r: int, k: int)
    requires
        0 <= w,
        n <= h,
        px.len() == w * h * 4,
        0 <= r < n,
        0 <= k < w * 4,
    ensures
        flipped_rows(px, w, h, n)[r * w * 4 + k] == px[(h - 1 - r) * w * 4 + k],
    decreases n,
{
    let m = (n - 1) as nat;
    lemma_flipped_len(px, w, h, m);
    assert(0 <= (h - n) * w * 4 && (h - n) * w * 4 + w * 4 <= w * h * 4) by (nonlinear_arith)
        requires
            0 <= w,
            1 <= n <= h,
    ;
    if r < m {
        lemma_flipped_index(px, w, h, m, r, k);
        assert(r * w * 4 + k < m * w * 4) by (nonlinear_arith)
            requires
                0 <= r < m,
                0 <= w,
                k < w * 4,
        ;
    } else {
        assert(r * w * 4 == m * w * 4);
    }
}

/// A row of the 32-bit level made from a picture is the same row of the
/// picture.
proof fn lemma_png_row(v: TextureView, px: Seq<u8>, w: int, h: int, y: int, m: nat)
    requires
        v.bpp == 32,
        0 < v.image.len(),
        v.image[0] == flipped_rows(px, w, h, h as nat),
        0 <= w,
        0 <= y < h,
        m <= w,
        px.len() == w * h * 4,
    ensures
        row_rgba(v, 0, w, h, y, m) == px.subrange(y * w * 4, y * w * 4 + m * 4),
    decreases m,
{
    assert(0 <= y * w * 4 && y * w * 4 + w * 4 <= w * h * 4) by (nonlinear_arith)
        requires
            0 <= w,
            0 <= y < h,
    ;
    if m > 0 {
        let x = m - 1;
        lemma_png_row(v, px, w, h, y, (m - 1) as nat);
        let off = (v.bpp / 8) * ((h - 1 - y) * w + x);
        assert(off == (h - 1 - y) * w * 4 + 4 * x) by (nonlinear_arith)
            requires
                v.bpp == 32,
                off == (v.bpp / 8) * ((h - 1 - y) * w + x),
        ;
        lemma_flipped_index(px, w, h, h as nat, h - 1 - y, 4 * x);
        lemma_flipped_index(px, w, h, h as nat, h - 1 - y, 4 * x + 1);
        lemma_flipped_index(px, w, h, h as nat, h - 1 - y, 4 * x + 2);
        lemma_flipped_index(px, w, h, h as nat, h - 1 - y, 4 * x + 3);
        assert((h - 1 - (h - 1 - y)) == y);
        assert(row_rgba(v, 0, w, h, y, m) =~= px.subrange(y * w * 4, y * w * 4 + m * 4));
    } else {
        assert(row_rgba(v, 0, w, h, y, m) =~= px.subrange(y * w * 4, y * w * 4 + m * 4));
    }
}

/// The first `n` rows of the 32-bit level made from a picture are the
/// picture's first `n` rows.
proof fn lemma_png_rows(v: TextureView, px: Seq<u8>, w: int, h: int, n: nat)
    requires
        v.bpp == 32,
        0 < v.image.len(),
        v.image[0] == flipped_rows(px, w, h, h as nat),
        0 <= w,
        n <= h,
        px.len() == w * h * 4,
    ensures
        level_rgba(v, 0, w, h, n) == px.subrange(0, n * w * 4),
    decreases n,
{
    if n > 0 {
        let y = n - 1;
        lemma_png_rows(v, px, w, h, (n - 1) as nat);
        lemma_png_row(v, px, w, h, y, w as nat);
        assert(y * w * 4 + w * 4 == n * w * 4 && n * w * 4 <= w * h * 4) by (nonlinear_arith)
            requires
                y == n - 1,
                n <= h,
                0 <= w,
        ;
        assert(level_rgba(v, 0, w, h, n) =~= px.subrange(0, n * w * 4));
    } else {
        assert(level_rgba(v, 0, w, h, n) =~= px.subrange(0, n * w * 4));
    }
}

/// Making a texture out of a picture and turning its first level back into a
/// picture gives the picture that was decoded: the RGBA bytes handed to the
/// PNG encoder are the decoded ones.
pub proof fn lemma_png_texture_picture(w: u16, h: u16, px: Seq<u8>, mip_count: u16)
    requires
        px.len() == w * h * 4,
    ensures
        level_rgba(png_texture(w, h, px, mip_count), 0, w as int, h as int, h as nat) == px,
{
    let v = png_texture(w, h, px, mip_count);
    assert(v.image[0] == flipped_rows(px, w as int, h as int, h as nat));
    lemma_png_rows(v, px, w as int, h as int, h as nat);
    assert(h * w * 4 == w * h * 4) by (nonlinear_arith);
    assert(px.subrange(0, h * w * 4) =~= px);
}

/// The rows of an RGBA picture, bottom row first.
fn flip_rows(px: &[u8], w: u32, h: u32) -> (out: Vec<u8>)
    requires
        w <= 65535,
        h <= 65535,
        px.len() == w * h * 4,
    ensures
        out@ == flipped_rows(px@, w as int, h as int, h as nat),
        out@.len() == w * h * 4,
{
    let mut out: Vec<u8> = Vec::new();
    let row_len: usize = (w as usize) * 4;
    let mut r: u32 = 0;
    while r < h
        invariant
            w <= 65535,
            h <= 65535,
            px.len() == w * h * 4,
            row_len == w * 4,
            r <= h,
            out@ == flipped_rows(px@, w as int, h as int, r as nat),
            out@.len() == r * w * 4,
        decreases h - r,
    {
        let row = h - 1 - r;
        assert((row as usize) * row_len + row_len <= px.len()) by (nonlinear_arith)
            requires
                row < h,
                row_len == w * 4,
                px.len() == w * h * 4,
        ;
        assert(row * w * 4 == (row as usize) * row_len) by (nonlinear_arith)
            requires
                row_len == w * 4,
        ;
        let start: usize = (row as usize) * row_len;
        push_all(&mut out, &px[start..start + row_len]);
        assert((r + 1) * w * 4 == r * w * 4 + w * 4) by (nonlinear_arith);
        r = r + 1;
    }
    assert(r * w * 4 == w * h * 4) by (nonlinear_arith)
        requires
            r == h,
    ;
    out
}

/// The half-size copy of a 32-bit level `w` by `h` pixels.
fn halve_level(prev: &[u8], w: u16, h: u16) -> (out: Vec<u8>)
    requires
        prev.len() == w * h * 4,
    ensures
        out@ == half_level(prev@, w as int, (h / 2) as nat),
        out@.len() == (w / 2) * (h / 2) * 4,
{
    let mut out: Vec<u8> = Vec::new();
    let hw = w / 2;
    let hh = h / 2;
    let mut y: u16 = 0;
    while y < hh
        invariant
            prev.len() == w * h * 4,
            hw == w / 2,
            hh == h / 2,
            y <= hh,
            out@ == half_level(prev@, w as int, y as nat),
            out@.len() == y * hw * 4,
        decreases hh - y,
    {
        let ghost before = out@;
        let mut x: u16 = 0;
        while x < hw
            invariant
                prev.len() == w * h * 4,
                hw == w / 2,
                hh == h / 2,
                y < hh,
                x <= hw,
                out@ == before + half_row(prev@, w as int, y as int, x as nat),
                out@.len() == before.len() + x * 4,
            decreases hw - x,
        {
            let ghost gy = y as int;
            let ghost gx = x as int;
            assert((2 * gy * w + 2 * gx) * 4 + 4 <= w * h * 4) by (nonlinear_arith)
                requires
                    2 * gy < h,
                    2 * gx < w,
            ;
            assert(2 * (y as usize) * (w as usize) <= 2 * 65535 * 65535) by (nonlinear_arith)
                requires
                    y <= 65535,
                    w <= 65535,
            ;
            let o: usize = (2 * (y as usize) * (w as usize) + 2 * (x as usize)) * 4;
            push_all(&mut out, &prev[o..o + 4]);
            x = x + 1;
        }
        assert(y * hw * 4 + hw * 4 == (y + 1) * hw * 4) by (nonlinear_arith);
        y = y + 1;
    }
    assert(y * hw * 4 == (w / 2) * (h / 2) * 4) by (nonlinear_arith)
        requires
            y == hh,
            hh == h / 2,
            hw == w / 2,
    ;
    out
}

/// Appends the two little-endian bytes of `x`.
fn push_u16(out: &mut Vec<u8>, x: u16)
    ensures
        final(out)@ == old(out)@ + u16_bytes(x),
{
    out.push((x % 256) as u8);
    out.push((x / 256) as u8);
    assert(final(out)@ =~= old(out)@ + u16_bytes(x));
}

/// A texture: its header fields, its colour map and the pixel data of each
/// mip level.
pub struct Texture {
    kind: u16,
    height: u16,
    width: u16,
    bpp: u16,
    unk1: u16,
    mip_count: u16,
    /// Present only for 8 bits per pixel: 256 RGB triples, flat.
    colormap: Option<Vec<u8>>,
    image: Vec<Vec<u8>>,
}

impl View for Texture {
    type V = TextureView;

    closed spec fn view(&self) -> TextureView {
        TextureView {
            kind: self.kind,
            height: self.height,
            width: self.width,
            bpp: self.bpp,
            unk1: self.unk1,
            mip_count: self.mip_count,
            colormap: match self.colormap {
                Some(cm) => Some(cm@),
                None => None,
            },
            image: self.image@.map_values(|level: Vec<u8>| level@),
        }
    }
}

impl Texture {
    #[verifier::type_invariant]
    closed spec fn inv(self) -> bool {
        texture_wf(self@)
    }

    /// Reads the texture that `raw` holds.
    pub fn load(raw: &[u8]) -> (t: Texture)
        requires
            btf_loadable(raw@),
        ensures
            t@ == btf_decode(raw@),
    {
        Self::try_load(raw).unwrap()
    }

    /// The `btf` bytes of this texture.
    pub fn to_raw(&self) -> (out: Vec<u8>)
        ensures
            out@ == btf_encode(self@),
    {
        proof {
            use_type_invariant(self);
        }
        let mut out: Vec<u8> = Vec::new();
        push_u16(&mut out, self.kind);
        push_u16(&mut out, self.height);
        push_u16(&mut out, self.width);
        push_u16(&mut out, self.bpp);
        push_u16(&mut out, self.unk1);
        push_u16(&mut out, self.mip_count);
        match &self.colormap {
            Some(cm) => push_all(&mut out, cm.as_slice()),
            None => {},
        }
        let ghost head = out@;
        let mut i: usize = 0;
        while i < self.image.len()
            invariant
                i <= self.image.len(),
                out@ == head + self@.image.take(i as int).flatten_alt(),
            decreases self.image.len() - i,
        {
            push_all(&mut out, self.image[i].as_slice());
            assert(self@.image.take(i + 1).drop_last() =~= self@.image.take(i as int));
            i = i + 1;
        }
        assert(self@.image.take(i as int) =~= self@.image);
        out
    }

    /// Whether `to_image` accepts this texture.
    pub fn is_renderable(&self) -> (b: bool)
        ensures
            b == renderable(self@),
    {
        if !(self.bpp == 8 || self.bpp == 24 || self.bpp == 32) {
            return false;
        }
        let count: u16 = if self.mip_count == 0 { 1 } else { self.mip_count };
        let mut m_width = self.width;
        let mut m_height = self.height;
        let mut i: u16 = 0;
        while i < count
            invariant
                count == level_count(self@.mip_count as int),
                i <= count,
                m_width == halved(self@.width as int, i as nat),
                m_height == halved(self@.height as int, i as nat),
                forall|j: nat|
                    j < i ==> 0 < #[trigger] halved(self@.width as int, j) && 0 < halved(
                        self@.height as int,
                        j,
                    ),
            decreases count - i,
        {
            if m_width == 0 || m_height == 0 {
                assert(halved(self@.width as int, i as nat) == m_width);
                return false;
            }
            m_width = m_width / 2;
            m_height = m_height / 2;
            i = i + 1;
        }
        true
    }

    /// The RGBA picture of mip level `lvl`, `w` by `h` pixels, rows from the
    /// top.
    fn level_to_rgba(&self, lvl: usize, w: u16, h: u16) -> (rgba: Vec<u8>)
        requires
            texture_wf(self@),
            self@.bpp == 8 || self@.bpp == 24 || self@.bpp == 32,
            lvl < self@.image.len(),
            w == halved(self@.width as int, lvl as nat),
            h == halved(self@.height as int, lvl as nat),
        ensures
            rgba@ == level_rgba(self@, lvl as int, w as int, h as int, h as nat),
    {
        let raw = self.image[lvl].as_slice();
        let bp: u64 = (self.bpp / 8) as u64;
        assert(self@.image[lvl as int].len() == level_size(
            self@.bpp as int,
            self@.width as int,
            self@.height as int,
            lvl as nat,
        ));
        assert(raw@.len() == bp * w * h);
        let mut rgba: Vec<u8> = Vec::new();
        let mut y: u16 = 0;
        while y < h
            invariant
                texture_wf(self@),
                self@.bpp == 8 || self@.bpp == 24 || self@.bpp == 32,
                lvl < self@.image.len(),
                raw@ == self@.image[lvl as int],
                bp == self@.bpp / 8,
                raw@.len() == bp * w * h,
                y <= h,
                rgba@ == level_rgba(self@, lvl as int, w as int, h as int, y as nat),
            decreases h - y,
        {
            let ghost before = rgba@;
            let mut x: u16 = 0;
            while x < w
                invariant
                    texture_wf(self@),
                    self@.bpp == 8 || self@.bpp == 24 || self@.bpp == 32,
                    lvl < self@.image.len(),
                    raw@ == self@.image[lvl as int],
                    bp == self@.bpp / 8,
                    raw@.len() == bp * w * h,
                    y < h,
                    x <= w,
                    rgba@ == before + row_rgba(self@, lvl as int, w as int, h as int, y as int, x as nat),
                decreases w - x,
            {
                let row: u64 = (h - 1 - y) as u64;
                assert(row * (w as u64) <= 65535 * 65535) by (nonlinear_arith)
                    requires
                        row <= 65535,
                        w <= 65535,
                ;
                let idx: u64 = row * w as u64 + x as u64;
                assert(idx + 1 <= (h as u64) * (w as u64)) by (nonlinear_arith)
                    requires
                        idx == row * w + x,
                        row == h - 1 - y,
                        x < w,
                        y < h,
                ;
                assert(bp * idx + bp <= bp * w * h) by (nonlinear_arith)
                    requires
                        idx + 1 <= h * w,
                        bp <= 4,
                ;
                assert(bp * idx <= 4 * (65535 * 65535)) by (nonlinear_arith)
                    requires
                        idx + 1 <= h * w,
                        bp <= 4,
                        h <= 65535,
                        w <= 65535,
                ;
                let off: usize = (bp * idx) as usize;
                if self.bpp == 8 {
                    let k = raw[off] as usize;
                    match &self.colormap {
                        Some(cm) => {
                            rgba.push(cm[3 * k]);
                            rgba.push(cm[3 * k + 1]);
                            rgba.push(cm[3 * k + 2]);
                            rgba.push(255u8);
                        },
                        None => {},
                    }
                } else if self.bpp == 24 {
                    rgba.push(raw[off]);
                    rgba.push(raw[off + 1]);
                    rgba.push(raw[off + 2]);
                    rgba.push(255u8);
                } else {
                    rgba.push(raw[off]);
                    rgba.push(raw[off + 1]);
                    rgba.push(raw[off + 2]);
                    rgba.push(raw[off + 3]);
                }
                x = x + 1;
                assert(rgba@ =~= before + row_rgba(self@, lvl as int, w as int, h as int, y as int, x as nat));
            }
            y = y + 1;
        }
        rgba
    }

    /// Converts every mip level into a PNG image.
    pub fn to_image(&self) -> (out: Vec<Vec<u8>>)
        requires
            renderable(self@),
        ensures
            out@.len() == level_count(self@.mip_count as int),
            forall|i: int| 0 <= i < out@.len() ==> (#[trigger] out@[i])@ == level_png(self@, i),
    {
        proof {
            use_type_invariant(self);
        }
        let image_count: u16 = if self.mip_count == 0 { 1 } else { self.mip_count };
        let mut m_width = self.width;
        let mut m_height = self.height;
        let mut out: Vec<Vec<u8>> = Vec::new();
        let mut i: u16 = 0;
        while i < image_count
            invariant
                texture_wf(self@),
                renderable(self@),
                image_count == level_count(self@.mip_count as int),
                i <= image_count,
                m_width == halved(self@.width as int, i as nat),
                m_height == halved(self@.height as int, i as nat),
                out@.len() == i,
                forall|j: int| 0 <= j < i ==> (#[trigger] out@[j])@ == level_png(self@, j),
            decreases image_count - i,
        {
            assert(0 < halved(self@.width as int, i as nat));
            let rgba = self.level_to_rgba(i as usize, m_width, m_height);
            proof {
                lemma_level_rgba_len(self@, i as int, m_width as int, m_height as int, m_height as nat);
            }
            let png = encode_png(m_width as u32, m_height as u32, rgba);
            out.push(png);
            m_width = m_width / 2;
            m_height = m_height / 2;
            i = i + 1;
        }
        out
    }

    /// Makes a 32-bit texture with `mip_count` mip levels out of a PNG file:
    /// `None` where `image` cannot decode it or it is wider or higher than
    /// 65535 pixels.
    pub fn from_png(raw: &[u8], mip_count: u16) -> (r: Option<Texture>)
        ensures
            r is Some <==> png_texture_of(raw@, mip_count) is Some,
            r matches Some(t) ==> png_texture_of(raw@, mip_count) == Some(t@),
            match png_rgba8_decoded(raw@) {
                None => r is None,
                Some((w, h, px)) => if w <= 65535 && h <= 65535 {
                    r matches Some(t) && t@ == png_texture(w as u16, h as u16, px, mip_count)
                } else {
                    r is None
                },
            },
    {
        let (w, h, px) = match decode_png(raw) {
            Some(d) => d,
            None => {
                return None;
            },
        };
        if w > 65535 || h > 65535 {
            return None;
        }
        let width = w as u16;
        let height = h as u16;
        let count: u16 = if mip_count == 0 { 1 } else { mip_count };
        let mut image: Vec<Vec<u8>> = Vec::new();
        image.push(flip_rows(px.as_slice(), w, h));
        assert(w * h * 4 == level_size(32, width as int, height as int, 0)) by (nonlinear_arith)
            requires
                width == w,
                height == h,
                halved(width as int, 0) == width,
                halved(height as int, 0) == height,
        ;
        let mut m_width = width;
        let mut m_height = height;
        let mut i: u16 = 1;
        while i < count
            invariant
                w == width,
                h == height,
                count == level_count(mip_count as int),
                1 <= i <= count,
                image@.len() == i,
                m_width == halved(width as int, (i - 1) as nat),
                m_height == halved(height as int, (i - 1) as nat),
                forall|j: int|
                    0 <= j < i ==> (#[trigger] image@[j])@ == png_level(
                        width as int,
                        height as int,
                        px@,
                        j as nat,
                    ) && image@[j]@.len() == level_size(32, width as int, height as int, j as nat),
            decreases count - i,
        {
            let ghost gi = i as int;
            assert(image@[gi - 1]@.len() == m_width * m_height * 4) by (nonlinear_arith)
                requires
                    image@[gi - 1]@.len() == level_size(32, width as int, height as int, (gi - 1) as nat),
                    level_size(32, width as int, height as int, (gi - 1) as nat) == 4 * m_width
                        * m_height,
            ;
            let next = halve_level(image[(i - 1) as usize].as_slice(), m_width, m_height);
            m_width = m_width / 2;
            m_height = m_height / 2;
            assert(next@.len() == level_size(32, width as int, height as int, gi as nat)) by (nonlinear_arith)
                requires
                    next@.len() == m_width * m_height * 4,
                    level_size(32, width as int, height as int, gi as nat) == 4 * m_width * m_height,
            ;
            image.push(next);
            i = i + 1;
        }
        let tex = Texture {
            kind: 2,
            height,
            width,
            bpp: 32,
            unk1: 256,
            mip_count,
            colormap: None,
            image,
        };
        assert(tex@.image =~= png_texture(width, height, px@, mip_count).image);
        Some(tex)
    }

    /// The image kind.
    pub fn kind(&self) -> (r: u16)
        ensures
            r == self@.kind,
    {
        self.kind
    }

    /// Height in pixels.
    pub fn height(&self) -> (r: u16)
        ensures
            r == self@.height,
    {
        self.height
    }

    /// Width in pixels.
    pub fn width(&self) -> (r: u16)
        ensures
            r == self@.width,
    {
        self.width
    }

    /// Bits per pixel.
    pub fn bpp(&self) -> (r: u16)
        ensures
            r == self@.bpp,
    {
        self.bpp
    }

    /// The number of mip levels (as stored; 0 stands for 1).
    pub fn mip_count(&self) -> (r: u16)
        ensures
            r == self@.mip_count,
    {
        self.mip_count
    }

    /// The number of images held, one per mip level.
    pub fn level_total(&self) -> (r: usize)
        ensures
            r == self@.image.len(),
    {
        self.image.len()
    }

    /// The pixel data of mip level `i`, bottom row first.
    pub fn level(&self, i: usize) -> (r: &[u8])
        requires
            i < self@.image.len(),
        ensures
            r@ == self@.image[i as int],
    {
        self.image[i].as_slice()
    }

    /// The colour map of an 8-bit texture: 256 RGB triples.
    pub fn colormap(&self) -> (r: Option<&[u8]>)
        ensures
            match r {
                Some(cm) => self@.colormap == Some(cm@),
                None => self@.colormap is None,
            },
    {
        match &self.colormap {
            Some(cm) => Some(cm.as_slice()),
            None => None,
        }
    }

    /// Reads a texture out of `raw`; `None` where `raw` does not hold a whole
    /// texture (`btf_loadable`).
    pub fn try_load(raw: &[u8]) -> (r: Option<Texture>)
        ensures
            r is Some <==> btf_loadable(raw@),
            r matches Some(t) ==> t@ == btf_decode(raw@),
    {
        if raw.len() < HEADER_LEN {
            return None;
        }
        let mut input = ArchiveCursor { data: raw, pos: 0 };
        let kind = input.read_u16();
        let height = input.read_u16();
        let width = input.read_u16();
        let bpp = input.read_u16();
        if bpp % 8 != 0 {
            return None;
        }
        let unk1 = input.read_u16();
        let mut mip_count = input.read_u16();
        if unk1 != 256 {
            mip_count = 1;
        }
        let ghost s = raw@;
        assert(bpp == btf_bpp(s) && width == btf_width(s) && height == btf_height(s));
        assert(mip_count == btf_mip_count(s));
        let colormap = if bpp == 8 {
            if raw.len() - input.pos < COLORMAP_LEN {
                proof {
                    lemma_levels_size_mono(bpp as int, width as int, height as int, 0, level_count(mip_count as int) as nat);
                }
                return None;
            }
            Some(vstd::slice::slice_to_vec(input.read_slice(COLORMAP_LEN)))
        } else {
            None
        };
        assert(input.pos == btf_data_start(s));
        let extract_count: u16 = if mip_count == 0 { 1 } else { mip_count };
        let mut m_width = width;
        let mut m_height = height;
        let mut image: Vec<Vec<u8>> = Vec::new();
        let mut i: u16 = 0;
        while i < extract_count
            invariant
                input.data == raw,
                s == raw@,
                bpp == btf_bpp(s),
                width == btf_width(s),
                height == btf_height(s),
                bpp % 8 == 0,
                extract_count == level_count(btf_mip_count(s)),
                i <= extract_count,
                m_width == halved(width as int, i as nat),
                m_height == halved(height as int, i as nat),
                input.pos == btf_data_start(s) + levels_size(bpp as int, width as int, height as int, i as nat),
                input.pos <= raw.len(),
                image@.len() == i,
                forall|j: int| 0 <= j < i ==> (#[trigger] image@[j])@ == btf_decode(s).image[j],
            decreases extract_count - i,
        {
            let bp = (bpp / 8) as u64;
            assert(bp * (m_width as u64) * (m_height as u64) <= 8192 * 65535 * 65535) by (nonlinear_arith)
                requires
                    bp <= 8192,
                    m_width <= 65535,
                    m_height <= 65535,
            ;
            assert(bp * (m_width as u64) <= 8192 * 65535) by (nonlinear_arith)
                requires
                    bp <= 8192,
                    m_width <= 65535,
            ;
            let size: u64 = bp * (m_width as u64) * (m_height as u64);
            assert(size == level_size(bpp as int, width as int, height as int, i as nat));
            if size > (raw.len() - input.pos) as u64 {
                proof {
                    lemma_levels_size_mono(bpp as int, width as int, height as int, (i + 1) as nat, extract_count as nat);
                }
                return None;
            }
            let level = vstd::slice::slice_to_vec(input.read_slice(size as usize));
            image.push(level);
            m_width = m_width / 2;
            m_height = m_height / 2;
            i = i + 1;
        }
        // Everything that is understood must have been read.
        if input.pos != raw.len() && unk1 != 0 {
            return None;
        }
        proof {
            lemma_decode_wf(s);
        }
        assert(image@.map_values(|level: Vec<u8>| level@) =~= btf_decode(s).image);
        let tex = Texture { kind, height, width, bpp, unk1, mip_count, colormap, image };
        assert(tex@.image =~= btf_decode(s).image);
        assert(tex@ == btf_decode(s));
        Some(tex)
    }
}

} // verus!
