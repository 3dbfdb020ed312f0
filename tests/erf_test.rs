use kotka::{Erf, Error};

fn put_u32(v: &mut Vec<u8>, x: u32) {
    v.extend_from_slice(&x.to_le_bytes());
}

fn read_u32(v: &[u8], at: usize) -> u32 {
    u32::from_le_bytes([v[at], v[at + 1], v[at + 2], v[at + 3]])
}

/// A pack of version `version` with localized strings `strings`, keys
/// `(resref, id, type)` and resource list entries pointing at `payloads`.
fn erf_file(
    version: &[u8; 4],
    strings: &[(u32, &[u8])],
    keys: &[(&str, u32, u32)],
    payloads: &[&[u8]],
) -> Vec<u8> {
    let width = if version[3] == b'0' { 16 } else { 32 };
    let loc = 160u32;
    let string_size: u32 = strings.iter().map(|(_, s)| 8 + s.len() as u32).sum();
    let key_list = loc + string_size;
    let resource_list = key_list + keys.len() as u32 * (width + 8);
    let data_start = resource_list + payloads.len() as u32 * 8;
    let mut v: Vec<u8> = b"ERF ".to_vec();
    v.extend_from_slice(version);
    put_u32(&mut v, strings.len() as u32);
    put_u32(&mut v, string_size);
    put_u32(&mut v, keys.len() as u32);
    put_u32(&mut v, loc);
    put_u32(&mut v, key_list);
    put_u32(&mut v, resource_list);
    put_u32(&mut v, 103);
    put_u32(&mut v, 45);
    put_u32(&mut v, 0xFFFF_FFFF);
    v.resize(loc as usize, 0);
    for (lang, text) in strings {
        put_u32(&mut v, *lang);
        put_u32(&mut v, text.len() as u32);
        v.extend_from_slice(text);
    }
    for (name, id, type_id) in keys {
        let mut n = name.as_bytes().to_vec();
        n.resize(width as usize, 0);
        v.extend_from_slice(&n);
        put_u32(&mut v, *id);
        put_u32(&mut v, *type_id);
    }
    let mut offset = data_start;
    for p in payloads {
        put_u32(&mut v, offset);
        put_u32(&mut v, p.len() as u32);
        offset += p.len() as u32;
    }
    for p in payloads {
        v.extend_from_slice(p);
    }
    v
}

fn sample(version: &[u8; 4]) -> Vec<u8> {
    erf_file(
        version,
        &[(0, b"Patch\0")],
        &[("areas", 0, 0x07E1), ("readme", 1, 0x000A), ("model", 2, 0x07D2)],
        &[b"2DA V2.b", b"hello", b"model bytes!"],
    )
}

fn triples(e: &Erf) -> Vec<(Vec<u8>, u32, u32)> {
    e.resources.iter().map(|r| (r.reference.clone(), r.id, r.type_id)).collect()
}

#[test]
fn decodes_header_strings_and_keys() {
    let data = sample(b"V1.0");
    let e = Erf::new(&data).unwrap();
    assert_eq!(&e.version, b"V1.0");
    assert_eq!(e.metadata.localized_string_count, 1);
    assert_eq!(e.metadata.localized_string_size, 14);
    assert_eq!(e.metadata.entry_count, 3);
    assert_eq!(e.metadata.offset_to_localized_string, 160);
    assert_eq!(e.metadata.offset_to_key_list, 174);
    assert_eq!(e.metadata.offset_to_resource_list, 174 + 3 * 24);
    assert_eq!(e.metadata.build_year, 103);
    assert_eq!(e.metadata.build_day, 45);
    assert_eq!(e.localised_strings[0].language_id, 0);
    assert_eq!(e.localised_strings[0].string, b"Patch\0".to_vec());
    assert_eq!(e.localised_strings[0].resolve_string(), b"Patch".to_vec());
    assert_eq!(e.resources[1].reference, b"readme".to_vec());
    assert_eq!(e.resources[1].metadata.size, 5);
    assert_eq!(e.resources[1].get_resource_type(), Ok("txt"));
    assert!(e.resources[1].data.is_none());
}

#[test]
fn versions_decode_to_the_same_keys() {
    let old = Erf::new(&sample(b"V1.0")).unwrap();
    let new = Erf::new(&sample(b"V1.1")).unwrap();
    assert_eq!(triples(&old), triples(&new));
    assert_eq!(
        triples(&old),
        vec![
            (b"areas".to_vec(), 0, 0x07E1),
            (b"readme".to_vec(), 1, 0x000A),
            (b"model".to_vec(), 2, 0x07D2),
        ]
    );
    assert_eq!(new.metadata.offset_to_resource_list, 174 + 3 * 40);
}

#[test]
fn metadata_is_addressed_by_id() {
    let data = erf_file(
        b"V1.0",
        &[],
        &[("second", 1, 0x000A), ("first", 0, 0x000A)],
        &[b"AAAA", b"BB"],
    );
    let mut e = Erf::new(&data).unwrap();
    assert_eq!(e.resources[0].metadata.size, 2);
    assert_eq!(e.resources[1].metadata.size, 4);
    assert_eq!(e.resources[0].fetch_data(&data).unwrap(), b"BB".to_vec());
}

#[test]
fn bad_pack_magic_is_missing_header() {
    let mut data = sample(b"V1.0");
    data[1] = b'X';
    assert!(matches!(Erf::new(&data), Err(Error::MissingHeader)));
    assert!(matches!(Erf::new(b""), Err(Error::MissingHeader)));
}

#[test]
fn truncated_pack_is_short_read() {
    let data = sample(b"V1.0");
    assert!(matches!(Erf::new(&data[..40]), Err(Error::ShortRead)));
    assert!(matches!(Erf::new(&data[..170]), Err(Error::ShortRead)));
    assert!(matches!(Erf::new(&data[..200]), Err(Error::ShortRead)));
}

#[test]
fn lookups_by_name_type_and_id() {
    let e = Erf::new(&sample(b"V1.1")).unwrap();
    assert_eq!(e.get_resource_id_by_name("readme.txt"), Some(1));
    assert_eq!(e.get_resource_id_by_name("readme.2da"), None);
    assert_eq!(e.get_resource_id_by_type("mdl"), Some(2));
    assert_eq!(e.get_resource_id_by_type("wav"), None);
    assert_eq!(e.get_resources_by_type("2da"), vec![0]);
    assert_eq!(e.get_resources_by_type("tga"), Vec::<u32>::new());
    assert_eq!(e.get_resource_by_id(2).unwrap().reference, b"model".to_vec());
    assert!(e.get_resource_by_id(9).is_none());
}

#[test]
fn several_resources_of_one_type() {
    let data = erf_file(
        b"V1.0",
        &[],
        &[("a", 0, 0x000A), ("b", 1, 0x07E1), ("c", 2, 0x000A)],
        &[b"1", b"2", b"3"],
    );
    let e = Erf::new(&data).unwrap();
    assert_eq!(e.get_resources_by_type("txt"), vec![0, 2]);
    assert_eq!(e.get_resource_id_by_type("txt"), Some(0));
}

#[test]
fn unknown_type_is_reported() {
    let data = erf_file(b"V1.0", &[], &[("odd", 0, 0x0005)], &[b"x"]);
    let e = Erf::new(&data).unwrap();
    assert_eq!(e.resources[0].get_resource_type(), Err(Error::UnknownResourceType));
    assert_eq!(e.get_resource_id_by_name("odd.txt"), None);
}

#[test]
fn load_file_reads_every_resource() {
    let data = sample(b"V1.0");
    let mut e = Erf::new(&data).unwrap();
    e.load_file(&data).unwrap();
    assert_eq!(e.resources[0].data, Some(b"2DA V2.b".to_vec()));
    assert_eq!(e.resources[2].data, Some(b"model bytes!".to_vec()));
    let mut short = Erf::new(&data).unwrap();
    assert_eq!(short.load_file(&data[..data.len() - 1]), Err(Error::ShortRead));
    assert!(short.resources[0].data.is_none());
}

#[test]
fn fetch_keeps_the_bytes() {
    let data = sample(b"V1.0");
    let mut e = Erf::new(&data).unwrap();
    let bytes = e.resources[1].fetch_data(&data).unwrap();
    assert_eq!(bytes, b"hello".to_vec());
    assert_eq!(e.resources[1].data, Some(b"hello".to_vec()));
    assert_eq!(e.resources[1].fetch_data(b"").unwrap(), b"hello".to_vec());
    assert_eq!(e.resources[2].fetch_data(&data[..10]), Err(Error::ShortRead));
}

#[test]
fn recalculate_sizing_lays_resources_end_to_end() {
    let data = sample(b"V1.1");
    let mut e = Erf::new(&data).unwrap();
    e.recalculate_sizing().unwrap();
    let start = 174 + 3 * 40 + 3 * 8;
    let offsets: Vec<Option<u32>> = e.resources.iter().map(|r| r.metadata.new_offset).collect();
    let sizes: Vec<Option<u32>> = e.resources.iter().map(|r| r.metadata.new_size).collect();
    assert_eq!(offsets, vec![Some(start), Some(start + 8), Some(start + 13)]);
    assert_eq!(sizes, vec![Some(8), Some(5), Some(12)]);
    for w in e.resources.windows(2) {
        let a = &w[0].metadata;
        let b = &w[1].metadata;
        assert!(a.new_offset.unwrap() + a.new_size.unwrap() <= b.new_offset.unwrap());
        assert!(a.new_offset.unwrap() < b.new_offset.unwrap());
    }
}

#[test]
fn rewrite_then_decode_is_a_fixed_point() {
    let data = sample(b"V1.0");
    let mut e = Erf::new(&data).unwrap();
    let out = e.write_erf_data(&data, Some((2024, 7))).unwrap();
    let mut again = Erf::new(&out).unwrap();
    assert_eq!(again.metadata, e.metadata);
    assert_eq!(again.metadata.build_year, 2024);
    assert_eq!(again.metadata.build_day, 7);
    assert_eq!(triples(&again), triples(&e));
    let before: Vec<(u32, u32)> = e
        .resources
        .iter()
        .map(|r| (r.metadata.new_offset.unwrap(), r.metadata.new_size.unwrap()))
        .collect();
    let decoded: Vec<(u32, u32)> =
        again.resources.iter().map(|r| (r.metadata.offset, r.metadata.size)).collect();
    assert_eq!(before, decoded);
    let second = again.write_erf_data(&out, None).unwrap();
    assert_eq!(second, out);
    again.load_file(&out).unwrap();
    assert_eq!(again.resources[2].data, Some(b"model bytes!".to_vec()));
}

#[test]
fn replacement_shifts_later_offsets() {
    let data = sample(b"V1.0");
    let mut e = Erf::new(&data).unwrap();
    e.recalculate_sizing().unwrap();
    let before: Vec<u32> = e.resources.iter().map(|r| r.metadata.new_offset.unwrap()).collect();
    e.replace_resource_data(1, b"a much longer text".to_vec());
    let out = e.write_erf_data(&data, None).unwrap();
    let after: Vec<u32> = e.resources.iter().map(|r| r.metadata.new_offset.unwrap()).collect();
    assert_eq!(after[0], before[0]);
    assert_eq!(after[1], before[1]);
    assert_eq!(after[2], before[2] + 18 - 5);
    let decoded = Erf::new(&out).unwrap();
    assert_eq!(decoded.resources[2].metadata.offset, before[2] + 13);
    let mut decoded = decoded;
    assert_eq!(
        decoded.resources[1].fetch_data(&out).unwrap(),
        b"a much longer text".to_vec()
    );
    assert_eq!(decoded.resources[2].fetch_data(&out).unwrap(), b"model bytes!".to_vec());
}

#[test]
fn rewrite_checks_layout_and_sources() {
    let data = sample(b"V1.0");
    let mut dup = Erf::new(&data).unwrap();
    dup.resources[1].id = 0;
    assert_eq!(dup.write_erf_data(&data, None), Err(Error::InvalidLayout));
    let mut inside = Erf::new(&data).unwrap();
    inside.metadata.offset_to_localized_string = 40;
    assert_eq!(inside.write_erf_data(&data, None), Err(Error::InvalidLayout));
    let mut short = Erf::new(&data).unwrap();
    assert_eq!(short.write_erf_data(&data[..100], None), Err(Error::ShortRead));
    assert!(short.resources[0].metadata.new_offset.is_none());
    let mut huge = Erf::new(&data).unwrap();
    huge.metadata.offset_to_localized_string = 0xFFFF_FFF0;
    assert_eq!(huge.recalculate_sizing(), Err(Error::InvalidLayout));
}

#[test]
fn rewrite_writes_the_header_bytes() {
    let data = sample(b"V1.1");
    let mut e = Erf::new(&data).unwrap();
    let out = e.write_erf_data(&data, None).unwrap();
    assert_eq!(&out[0..8], b"ERF V1.1");
    assert_eq!(read_u32(&out, 8), 1);
    assert_eq!(read_u32(&out, 20), 160);
    assert_eq!(out.len(), 174 + 3 * 40 + 3 * 8 + 8 + 5 + 12);
    assert_eq!(&out[out.len() - 12..], b"model bytes!");
}
