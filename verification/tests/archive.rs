use redextract::archive::{
    plan_extraction, prepare_file, Decode, ExtractEnd, PackError, Packer, PACK_TIMESTAMP,
};

fn archive(version: u32, files: &[(u32, &str, &[u8])]) -> Vec<u8> {
    let mut out = Vec::new();
    out.extend_from_slice(&version.to_le_bytes());
    out.extend_from_slice(&(files.len() as u32).to_le_bytes());
    for (ts, name, data) in files {
        out.extend_from_slice(&ts.to_le_bytes());
        out.extend_from_slice(&(data.len() as u32).to_le_bytes());
        out.extend_from_slice(&(name.len() as u32).to_le_bytes());
        out.extend_from_slice(name.as_bytes());
    }
    for (_, _, data) in files {
        out.extend_from_slice(data);
    }
    out
}

fn decode_is(d: &Decode, expected: &str) -> bool {
    match d {
        Decode::Raw => expected == "raw",
        Decode::Texture => expected == "texture",
        Decode::Model => expected == "model",
    }
}

#[test]
fn plans_every_file_in_order() {
    let data = archive(2, &[(7, "a.wav", b"abc"), (8, "b.TXT", b""), (9, "c", b"xy")]);
    let plan = plan_extraction(&data, true);
    assert!(matches!(plan.end, ExtractEnd::Finished));
    assert_eq!(plan.steps.len(), 3);
    let names: Vec<&str> = plan.steps.iter().map(|s| s.entry.name.as_str()).collect();
    assert_eq!(names, ["a.wav", "b.TXT", "c"]);
    let s0 = &plan.steps[0];
    assert_eq!(s0.entry.timestamp, 7);
    assert_eq!(s0.entry.size, 3);
    assert_eq!(&data[s0.offset..s0.offset + 3], b"abc");
    let s2 = &plan.steps[2];
    assert_eq!(&data[s2.offset..s2.offset + 2], b"xy");
    assert_eq!(s2.offset, data.len() - 2);
    assert!(plan.steps.iter().all(|s| decode_is(&s.decode, "raw")));
}

#[test]
fn converters_are_chosen_by_suffix_ignoring_case() {
    let data = archive(2, &[(1, "sky.BTF", b"t"), (2, "car.geo", b"g"), (3, "x.btf.wav", b"w")]);
    let plan = plan_extraction(&data, true);
    assert!(matches!(plan.end, ExtractEnd::Finished));
    assert!(decode_is(&plan.steps[0].decode, "texture"));
    assert!(decode_is(&plan.steps[1].decode, "model"));
    assert!(decode_is(&plan.steps[2].decode, "raw"));
    let raw = plan_extraction(&data, false);
    assert!(raw.steps.iter().all(|s| decode_is(&s.decode, "raw")));
}

#[test]
fn broken_texture_is_written_but_not_converted() {
    let data = archive(2, &[(1, "a.wav", b"a"), (2, "railbtm2x.btf", b"r"), (3, "b.btf", b"b")]);
    let plan = plan_extraction(&data, true);
    assert!(matches!(plan.end, ExtractEnd::Finished));
    assert_eq!(plan.steps.len(), 3);
    assert_eq!(plan.steps[1].entry.name, "railbtm2x.btf");
    assert!(decode_is(&plan.steps[1].decode, "raw"));
    assert_eq!(&data[plan.steps[1].offset..plan.steps[1].offset + 1], b"r");
    // extraction goes on after it
    assert_eq!(plan.steps[2].entry.name, "b.btf");
    assert!(decode_is(&plan.steps[2].decode, "texture"));
    // without conversion the same files are written
    let raw = plan_extraction(&data, false);
    assert!(matches!(raw.end, ExtractEnd::Finished));
    assert_eq!(raw.steps.len(), 3);
    for (a, b) in plan.steps.iter().zip(raw.steps.iter()) {
        assert_eq!(a.offset, b.offset);
        assert_eq!(a.entry.name, b.entry.name);
    }
    // the prefix test is case-sensitive
    let data = archive(2, &[(1, "RAILBTM2.btf", b"r")]);
    let plan = plan_extraction(&data, true);
    assert!(matches!(plan.end, ExtractEnd::Finished));
    assert!(decode_is(&plan.steps[0].decode, "texture"));
}

#[test]
fn unknown_version() {
    let data = archive(3, &[(1, "a", b"a")]);
    let plan = plan_extraction(&data, true);
    assert!(matches!(plan.end, ExtractEnd::UnknownVersion(3)));
    assert!(plan.steps.is_empty());
}

#[test]
fn truncated_archives() {
    let data = archive(2, &[(1, "a", b"aa"), (2, "b", b"bbb")]);
    // data of the last file cut short: the first is still planned
    let plan = plan_extraction(&data[..data.len() - 1], false);
    assert!(matches!(plan.end, ExtractEnd::Truncated));
    assert_eq!(plan.steps.len(), 1);
    // table of contents cut short: nothing
    let plan = plan_extraction(&data[..20], false);
    assert!(matches!(plan.end, ExtractEnd::Truncated));
    assert!(plan.steps.is_empty());
    assert!(matches!(plan_extraction(&[2, 0, 0], false).end, ExtractEnd::Truncated));
    assert!(matches!(plan_extraction(&[2, 0, 0, 0, 0], false).end, ExtractEnd::Truncated));
    assert!(matches!(plan_extraction(&[], false).end, ExtractEnd::Truncated));
}

#[test]
fn empty_archive() {
    let data = archive(2, &[]);
    let plan = plan_extraction(&data, true);
    assert!(matches!(plan.end, ExtractEnd::Finished));
    assert!(plan.steps.is_empty());
}

#[test]
fn invalid_name_bytes_are_replaced() {
    let mut data = Vec::new();
    data.extend_from_slice(&2u32.to_le_bytes());
    data.extend_from_slice(&1u32.to_le_bytes());
    data.extend_from_slice(&0u32.to_le_bytes());
    data.extend_from_slice(&0u32.to_le_bytes());
    data.extend_from_slice(&2u32.to_le_bytes());
    data.extend_from_slice(&[b'a', 0xff]);
    let plan = plan_extraction(&data, false);
    assert_eq!(plan.steps[0].entry.name, "a\u{FFFD}");
}

#[test]
fn packing_writes_the_archive_format() {
    let mut packer = Packer::new();
    assert!(packer.add("one.wav".to_string(), vec![1, 2, 3]));
    assert!(packer.add("two".to_string(), vec![]));
    let bytes = packer.to_bytes();
    let expected = archive(
        2,
        &[(PACK_TIMESTAMP, "one.wav", &[1, 2, 3]), (PACK_TIMESTAMP, "two", &[])],
    );
    assert_eq!(bytes, expected);
    assert_eq!(PACK_TIMESTAMP, 946731600);
}

#[test]
fn first_file_of_a_name_wins() {
    let mut packer = Packer::new();
    assert!(packer.add("a".to_string(), vec![1]));
    assert!(!packer.add("a".to_string(), vec![2]));
    assert_eq!(packer.to_bytes(), archive(2, &[(PACK_TIMESTAMP, "a", &[1])]));
}

#[test]
fn pack_then_extract_gives_back_the_files() {
    let mut packer = Packer::new();
    packer.add("héllo.wav".to_string(), b"hello".to_vec());
    packer.add("car.geo".to_string(), vec![9; 40]);
    packer.add("empty".to_string(), vec![]);
    let bytes = packer.to_bytes();
    let plan = plan_extraction(&bytes, false);
    assert!(matches!(plan.end, ExtractEnd::Finished));
    let got: Vec<(String, u32, Vec<u8>)> = plan
        .steps
        .iter()
        .map(|s| {
            (
                s.entry.name.clone(),
                s.entry.timestamp,
                bytes[s.offset..s.offset + s.entry.size as usize].to_vec(),
            )
        })
        .collect();
    assert_eq!(
        got,
        vec![
            ("héllo.wav".to_string(), PACK_TIMESTAMP, b"hello".to_vec()),
            ("car.geo".to_string(), PACK_TIMESTAMP, vec![9; 40]),
            ("empty".to_string(), PACK_TIMESTAMP, vec![]),
        ]
    );
}

fn png_1x1() -> Vec<u8> {
    let mut img = image::RgbaImage::new(1, 1);
    img.put_pixel(0, 0, image::Rgba([1, 2, 3, 4]));
    let mut png = Vec::new();
    img.write_to(&mut std::io::Cursor::new(&mut png), image::ImageFormat::Png).unwrap();
    png
}

#[test]
fn png_files_are_packed_as_textures() {
    let (name, contents) = prepare_file("sky.btf.PNG".to_string(), png_1x1()).unwrap();
    assert_eq!(name, "sky.btf");
    let mut texture = Vec::new();
    for x in [2u16, 1, 1, 32, 256, 0] {
        texture.extend_from_slice(&x.to_le_bytes());
    }
    texture.extend_from_slice(&[1, 2, 3, 4]);
    assert_eq!(contents, texture);
    assert_eq!(
        prepare_file("notes.txt".to_string(), b"hi".to_vec()),
        Ok(("notes.txt".to_string(), b"hi".to_vec()))
    );
    let mut packer = Packer::new();
    assert!(packer.add(name, contents));
    // same name as the converted texture: skipped
    assert!(!packer.add("sky.btf".to_string(), vec![0]));
    assert!(packer.add("notes.txt".to_string(), b"hi".to_vec()));
    let expected = archive(
        2,
        &[(PACK_TIMESTAMP, "sky.btf", &texture), (PACK_TIMESTAMP, "notes.txt", b"hi")],
    );
    assert_eq!(packer.to_bytes(), expected);
}

#[test]
fn bad_png_files_are_refused() {
    assert_eq!(prepare_file("x.png".to_string(), b"nope".to_vec()), Err(PackError::UndecodablePng));
    let (name, _) = prepare_file("\u{e9}.png".to_string(), png_1x1()).unwrap();
    assert_eq!(name, "\u{e9}");
}
