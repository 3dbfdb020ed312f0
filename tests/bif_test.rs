use kotka::bif::PackedId;
use kotka::{resource_extension, Bif, Error};

fn put_u16(v: &mut Vec<u8>, x: u16) {
    v.extend_from_slice(&x.to_le_bytes());
}

fn put_u32(v: &mut Vec<u8>, x: u32) {
    v.extend_from_slice(&x.to_le_bytes());
}

fn padded(name: &str, width: usize) -> Vec<u8> {
    let mut b = name.as_bytes().to_vec();
    b.resize(width, 0);
    b
}

/// A key file naming archives `archives` and holding `keys` as
/// `(resref, type id, packed id)`.
fn key_file(archives: &[&str], keys: &[(&str, u16, u32)]) -> Vec<u8> {
    let file_table = 24u32;
    let names_start = file_table + 12 * archives.len() as u32;
    let mut names: Vec<u8> = Vec::new();
    let mut table: Vec<u8> = Vec::new();
    for a in archives {
        let at = names_start + names.len() as u32;
        // The name is read after the declared span `name_offset + name_size`.
        put_u32(&mut table, 0);
        put_u32(&mut table, at - 3);
        put_u16(&mut table, 3);
        put_u16(&mut table, 0);
        names.extend_from_slice(a.as_bytes());
        names.push(0);
    }
    let key_table = names_start + names.len() as u32;
    let mut v: Vec<u8> = b"KEY V1  ".to_vec();
    put_u32(&mut v, archives.len() as u32);
    put_u32(&mut v, keys.len() as u32);
    put_u32(&mut v, file_table);
    put_u32(&mut v, key_table);
    v.extend_from_slice(&table);
    v.extend_from_slice(&names);
    for (resref, type_id, id) in keys {
        v.extend_from_slice(&padded(resref, 16));
        put_u16(&mut v, *type_id);
        put_u32(&mut v, *id);
    }
    v
}

/// A data archive whose resource table holds `payloads` in order.
fn data_archive(payloads: &[&[u8]]) -> Vec<u8> {
    let mut v: Vec<u8> = b"BIFFV1  ".to_vec();
    v.resize(24, 0);
    let mut offset = 24 + 16 * payloads.len() as u32;
    for p in payloads {
        put_u32(&mut v, offset);
        put_u32(&mut v, p.len() as u32);
        put_u32(&mut v, 0);
        put_u32(&mut v, 0);
        offset += p.len() as u32;
    }
    for p in payloads {
        v.extend_from_slice(p);
    }
    v
}

#[test]
fn test_bif() {
    let path = String::from("example_files/kotor2/");
    let key = key_file(&["data.bif"], &[("test", 0x000A, 0)]);
    let bif = Bif::new(&path, &key, None, None).unwrap();

    assert_eq!(bif.path, path)
}

#[test]
fn get_resource_returns_the_staged_bytes() {
    let key = key_file(&["data.bif"], &[("test", 0x000A, 0)]);
    let bif = Bif::new("install", &key, None, None).unwrap();
    let archive = data_archive(&[b"hello, archive"]);
    let bytes = bif.get_resource("data.bif", "test.txt", &archive).unwrap();
    assert_eq!(bytes, b"hello, archive".to_vec());
}

#[test]
fn get_resource_uses_the_position_inside_the_archive() {
    let key = key_file(
        &["a.bif", "b.bif"],
        &[("first", 0x000A, (1 << 20) | 0), ("second", 0x07E1, (1 << 20) | 1)],
    );
    let bif = Bif::new("install", &key, None, None).unwrap();
    let archive = data_archive(&[b"one", b"second payload"]);
    let res = bif.open_resource_file("b.bif", "second.2da").unwrap();
    assert_eq!(res.idx, 1);
    assert_eq!(res.type_id, 0x07E1);
    assert_eq!(res.resource_type, "2da");
    let bytes = bif.get_resource("b.bif", "second.2da", &archive).unwrap();
    assert_eq!(bytes.len(), 14);
    assert_eq!(bytes, b"second payload".to_vec());
    assert!(bif.open_resource_file("a.bif", "second.2da").is_none());
}

#[test]
fn missing_resource_is_reported() {
    let key = key_file(&["data.bif"], &[("test", 0x000A, 0)]);
    let bif = Bif::new("install", &key, None, None).unwrap();
    let archive = data_archive(&[b"x"]);
    assert_eq!(
        bif.get_resource("data.bif", "other.txt", &archive),
        Err(Error::ResourceNotFound)
    );
    assert_eq!(
        bif.get_resource("else.bif", "test.txt", &archive),
        Err(Error::ResourceNotFound)
    );
}

#[test]
fn short_archive_is_reported() {
    let key = key_file(&["data.bif"], &[("test", 0x000A, 0)]);
    let bif = Bif::new("install", &key, None, None).unwrap();
    let mut archive = data_archive(&[b"0123456789"]);
    archive.truncate(archive.len() - 1);
    assert_eq!(
        bif.get_resource("data.bif", "test.txt", &archive),
        Err(Error::ShortRead)
    );
    assert_eq!(
        bif.get_resource("data.bif", "test.txt", &archive[..20]),
        Err(Error::ShortRead)
    );
}

#[test]
fn bad_key_magic_is_missing_header() {
    let mut key = key_file(&["data.bif"], &[("test", 0x000A, 0)]);
    key[0] = b'X';
    assert!(matches!(Bif::new("i", &key, None, None), Err(Error::MissingHeader)));
    assert!(matches!(Bif::new("i", b"KE", None, None), Err(Error::MissingHeader)));
}

#[test]
fn truncated_key_file_is_short_read() {
    let key = key_file(&["data.bif"], &[("test", 0x000A, 0)]);
    assert!(matches!(Bif::new("i", &key[..20], None, None), Err(Error::ShortRead)));
    assert!(matches!(
        Bif::new("i", &key[..key.len() - 1], None, None),
        Err(Error::ShortRead)
    ));
}

#[test]
fn unknown_types_are_skipped() {
    let key = key_file(&["data.bif"], &[("odd", 0x0005, 0), ("test", 0x000A, 1)]);
    let bif = Bif::new("install", &key, None, None).unwrap();
    assert_eq!(bif.skipped, vec![0]);
    assert!(bif.open_resource_file("data.bif", "test.txt").is_some());
    assert_eq!(bif.bifs.len(), 1);
}

#[test]
fn archive_filter_keeps_one_archive() {
    let key = key_file(
        &["a.bif", "b.bif"],
        &[("first", 0x000A, 0), ("second", 0x000A, 1 << 20)],
    );
    let bif = Bif::new("install", &key, Some(1), None).unwrap();
    assert_eq!(bif.bifs.len(), 1);
    assert!(bif.open_resource_file("b.bif", "second.txt").is_some());
    assert!(bif.open_resource_file("a.bif", "first.txt").is_none());
}

#[test]
fn type_filter_keeps_one_type() {
    let key = key_file(&["a.bif"], &[("first", 0x000A, 0), ("model", 0x07D2, 1)]);
    let bif = Bif::new("install", &key, None, Some("mdl")).unwrap();
    assert_eq!(bif.bifs.len(), 1);
    assert!(bif.open_resource_file("a.bif", "model.mdl").is_some());
    assert!(bif.open_resource_file("a.bif", "first.txt").is_none());
    let none = Bif::new("install", &key, Some(1), Some("mdl")).unwrap();
    assert_eq!(none.bifs.len(), 0);
}

#[test]
fn repeated_names_keep_the_last_entry() {
    let key = key_file(&["a.bif"], &[("same", 0x000A, 0), ("same", 0x000A, 7)]);
    let bif = Bif::new("install", &key, None, None).unwrap();
    assert_eq!(bif.bifs.len(), 1);
    assert_eq!(bif.open_resource_file("a.bif", "same.txt").unwrap().idx, 7);
}

#[test]
fn packed_id_parts() {
    let id = PackedId::decode(0x0030_0005);
    assert_eq!(id.archive_index, 3);
    assert_eq!(id.position, 5);
    assert_eq!(id.encode(), Some(0x0030_0005));
    let top = PackedId::decode(0xFFFF_FFFF);
    assert_eq!(top.archive_index, 0xFFF);
    assert_eq!(top.position, 0xF_FFFF);
    assert_eq!(top.archive_index * (1 << 20) + top.position, 0xFFFF_FFFF);
    let bad = PackedId { archive_index: 0, position: 1 << 20 };
    assert_eq!(bad.encode(), None);
}

#[test]
fn catalog_lookups() {
    assert_eq!(resource_extension(0x000A), Some("txt"));
    assert_eq!(resource_extension(0x07E1), Some("2da"));
    assert_eq!(resource_extension(0x270F), Some("key"));
    assert_eq!(resource_extension(0x0005), None);
    assert_eq!(resource_extension(0xFFFF), None);
}
