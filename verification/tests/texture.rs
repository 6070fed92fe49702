use redextract::texture::Texture;

fn header(kind: u16, height: u16, width: u16, bpp: u16, unk1: u16, mips: u16) -> Vec<u8> {
    let mut out = Vec::new();
    for x in [kind, height, width, bpp, unk1, mips] {
        out.extend_from_slice(&x.to_le_bytes());
    }
    out
}

fn decode_png(png: &[u8]) -> image::RgbaImage {
    image::load_from_memory_with_format(png, image::ImageFormat::Png).unwrap().into_rgba8()
}

fn rgb24_with_mip() -> Vec<u8> {
    let mut raw = header(2, 2, 2, 24, 256, 2);
    // level 0, bottom row first: (0,bottom) (1,bottom) then (0,top) (1,top)
    raw.extend_from_slice(&[10, 11, 12, 20, 21, 22, 30, 31, 32, 40, 41, 42]);
    // level 1: one pixel
    raw.extend_from_slice(&[50, 51, 52]);
    raw
}

#[test]
fn loads_a_24_bit_texture_with_mips() {
    let raw = rgb24_with_mip();
    let tex = Texture::try_load(&raw).unwrap();
    assert_eq!(tex.kind(), 2);
    assert_eq!(tex.width(), 2);
    assert_eq!(tex.height(), 2);
    assert_eq!(tex.bpp(), 24);
    assert_eq!(tex.mip_count(), 2);
    assert_eq!(tex.level_total(), 2);
    assert_eq!(tex.level(0), &raw[12..24]);
    assert_eq!(tex.level(1), &[50, 51, 52]);
    assert!(tex.colormap().is_none());
}

#[test]
fn load_agrees_with_try_load() {
    let raw = rgb24_with_mip();
    let tex = Texture::load(&raw);
    assert_eq!(tex.to_raw(), raw);
}

#[test]
fn short_or_odd_textures_are_refused() {
    let raw = rgb24_with_mip();
    assert!(Texture::try_load(&raw[..raw.len() - 1]).is_none());
    assert!(Texture::try_load(&raw[..5]).is_none());
    let mut odd = header(2, 1, 1, 12, 256, 0);
    odd.extend_from_slice(&[0, 0]);
    assert!(Texture::try_load(&odd).is_none());
    // 8 bits per pixel but no room for the colour map
    let mut cut = header(2, 1, 1, 8, 256, 0);
    cut.extend_from_slice(&[0; 100]);
    assert!(Texture::try_load(&cut).is_none());
}

#[test]
fn mip_count_zero_means_one_image() {
    let mut raw = header(2, 1, 1, 32, 256, 0);
    raw.extend_from_slice(&[1, 2, 3, 4]);
    let tex = Texture::try_load(&raw).unwrap();
    assert_eq!(tex.mip_count(), 0);
    assert_eq!(tex.level_total(), 1);
    let png = tex.to_image();
    assert_eq!(png.len(), 1);
    let img = decode_png(&png[0]);
    assert_eq!(img.get_pixel(0, 0).0, [1, 2, 3, 4]);
}

#[test]
fn unknown_field_other_than_256_forces_one_level() {
    let mut raw = header(2, 1, 1, 24, 0, 5);
    raw.extend_from_slice(&[7, 8, 9]);
    raw.extend_from_slice(&[0xaa; 10]); // not read
    let tex = Texture::try_load(&raw).unwrap();
    assert_eq!(tex.mip_count(), 1);
    assert_eq!(tex.level_total(), 1);
    assert_eq!(tex.level(0), &[7, 8, 9]);
    // written back with the mip count that was used
    let mut expected = header(2, 1, 1, 24, 0, 1);
    expected.extend_from_slice(&[7, 8, 9]);
    assert_eq!(tex.to_raw(), expected);
}

#[test]
fn colour_mapped_texture() {
    let mut raw = header(2, 1, 2, 8, 256, 1);
    let mut colormap = vec![0u8; 768];
    colormap[15] = 100;
    colormap[16] = 110;
    colormap[17] = 120;
    colormap[3] = 1;
    colormap[4] = 2;
    colormap[5] = 3;
    raw.extend_from_slice(&colormap);
    raw.extend_from_slice(&[5, 1]);
    let tex = Texture::try_load(&raw).unwrap();
    assert_eq!(tex.colormap().unwrap(), &colormap[..]);
    assert!(tex.is_renderable());
    let png = tex.to_image();
    let img = decode_png(&png[0]);
    assert_eq!(img.dimensions(), (2, 1));
    assert_eq!(img.get_pixel(0, 0).0, [100, 110, 120, 255]);
    assert_eq!(img.get_pixel(1, 0).0, [1, 2, 3, 255]);
    assert_eq!(tex.to_raw(), raw);
}

#[test]
fn images_are_flipped_to_top_first() {
    let tex = Texture::load(&rgb24_with_mip());
    assert!(tex.is_renderable());
    let png = tex.to_image();
    assert_eq!(png.len(), 2);
    let top = decode_png(&png[0]);
    assert_eq!(top.dimensions(), (2, 2));
    // the data holds the bottom row first
    assert_eq!(top.get_pixel(0, 1).0, [10, 11, 12, 255]);
    assert_eq!(top.get_pixel(1, 1).0, [20, 21, 22, 255]);
    assert_eq!(top.get_pixel(0, 0).0, [30, 31, 32, 255]);
    assert_eq!(top.get_pixel(1, 0).0, [40, 41, 42, 255]);
    let small = decode_png(&png[1]);
    assert_eq!(small.dimensions(), (1, 1));
    assert_eq!(small.get_pixel(0, 0).0, [50, 51, 52, 255]);
}

#[test]
fn textures_that_cannot_be_rendered() {
    // a second level of 0 by 0 pixels
    let mut raw = header(2, 1, 1, 24, 256, 2);
    raw.extend_from_slice(&[1, 2, 3]);
    let tex = Texture::try_load(&raw).unwrap();
    assert!(!tex.is_renderable());
    // 16 bits per pixel is no known format
    let mut raw = header(2, 1, 1, 16, 256, 0);
    raw.extend_from_slice(&[1, 2]);
    let tex = Texture::try_load(&raw).unwrap();
    assert!(!tex.is_renderable());
}

fn png_2x2() -> Vec<u8> {
    let mut img = image::RgbaImage::new(2, 2);
    img.put_pixel(0, 0, image::Rgba([1, 2, 3, 4]));
    img.put_pixel(1, 0, image::Rgba([5, 6, 7, 8]));
    img.put_pixel(0, 1, image::Rgba([9, 10, 11, 12]));
    img.put_pixel(1, 1, image::Rgba([13, 14, 15, 16]));
    let mut png = Vec::new();
    img.write_to(&mut std::io::Cursor::new(&mut png), image::ImageFormat::Png).unwrap();
    png
}

#[test]
fn texture_from_png() {
    let tex = Texture::from_png(&png_2x2(), 0).unwrap();
    assert_eq!(tex.kind(), 2);
    assert_eq!(tex.bpp(), 32);
    assert_eq!(tex.width(), 2);
    assert_eq!(tex.height(), 2);
    assert_eq!(tex.mip_count(), 0);
    assert_eq!(tex.level(0), &[9, 10, 11, 12, 13, 14, 15, 16, 1, 2, 3, 4, 5, 6, 7, 8]);
    let mut expected = header(2, 2, 2, 32, 256, 0);
    expected.extend_from_slice(&[9, 10, 11, 12, 13, 14, 15, 16, 1, 2, 3, 4, 5, 6, 7, 8]);
    assert_eq!(tex.to_raw(), expected);
    // and back to the same picture
    let back = decode_png(&tex.to_image()[0]);
    assert_eq!(back, decode_png(&png_2x2()));
}

#[test]
fn texture_from_png_with_mips() {
    let tex = Texture::from_png(&png_2x2(), 2).unwrap();
    assert_eq!(tex.level_total(), 2);
    // the half-size level takes the bottom-left pixel
    assert_eq!(tex.level(1), &[9, 10, 11, 12]);
    let again = Texture::load(&tex.to_raw());
    assert_eq!(again.to_raw(), tex.to_raw());
}

#[test]
fn garbage_is_no_png() {
    assert!(Texture::from_png(b"not a png", 0).is_none());
}

#[test]
fn bytes_after_the_last_level_are_refused_unless_the_unknown_field_is_zero() {
    let mut raw = rgb24_with_mip();
    raw.push(0);
    assert!(Texture::try_load(&raw).is_none());
    let mut odd = header(2, 1, 1, 24, 7, 1);
    odd.extend_from_slice(&[1, 2, 3, 4]);
    assert!(Texture::try_load(&odd).is_none());
    let mut zero = header(2, 1, 1, 24, 0, 1);
    zero.extend_from_slice(&[1, 2, 3, 4]);
    assert_eq!(Texture::try_load(&zero).unwrap().level(0), &[1, 2, 3]);
}
