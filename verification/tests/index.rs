use fntldr::introspect::get_font_names;
use fntldr::FontIndexError;
use fntldr::FontProviders;

/// One name-table record for a built test font: platform identifier,
/// name identifier, text.
struct TestName {
    platform: u16,
    name_id: u16,
    bytes: Vec<u8>,
}

fn windows_name(name_id: u16, text: &str) -> TestName {
    let mut bytes = Vec::new();
    for unit in text.encode_utf16() {
        bytes.extend_from_slice(&unit.to_be_bytes());
    }
    TestName { platform: 3, name_id, bytes }
}

fn mac_name(name_id: u16, bytes: &[u8]) -> TestName {
    TestName { platform: 1, name_id, bytes: bytes.to_vec() }
}

fn name_table(names: &[TestName]) -> Vec<u8> {
    let count = names.len() as u16;
    let mut t = Vec::new();
    t.extend_from_slice(&0u16.to_be_bytes());
    t.extend_from_slice(&count.to_be_bytes());
    t.extend_from_slice(&(6 + 12 * count).to_be_bytes());
    let mut storage = Vec::new();
    for n in names {
        t.extend_from_slice(&n.platform.to_be_bytes());
        let encoding: u16 = if n.platform == 3 { 1 } else { 0 };
        t.extend_from_slice(&encoding.to_be_bytes());
        let language: u16 = if n.platform == 3 { 0x409 } else { 0 };
        t.extend_from_slice(&language.to_be_bytes());
        t.extend_from_slice(&n.name_id.to_be_bytes());
        t.extend_from_slice(&(n.bytes.len() as u16).to_be_bytes());
        t.extend_from_slice(&(storage.len() as u16).to_be_bytes());
        storage.extend_from_slice(&n.bytes);
    }
    t.extend_from_slice(&storage);
    t
}

fn head_table() -> Vec<u8> {
    let mut t = Vec::new();
    t.extend_from_slice(&0x00010000u32.to_be_bytes());
    t.extend_from_slice(&0u32.to_be_bytes());
    t.extend_from_slice(&0u32.to_be_bytes());
    t.extend_from_slice(&0x5F0F3CF5u32.to_be_bytes());
    t.extend_from_slice(&0u16.to_be_bytes());
    t.extend_from_slice(&1000u16.to_be_bytes());
    t.extend_from_slice(&[0u8; 16]);
    t.extend_from_slice(&[0u8; 8]);
    t.extend_from_slice(&0u16.to_be_bytes());
    t.extend_from_slice(&0u16.to_be_bytes());
    t.extend_from_slice(&0u16.to_be_bytes());
    t.extend_from_slice(&0u16.to_be_bytes());
    t.extend_from_slice(&0u16.to_be_bytes());
    t
}

fn hhea_table() -> Vec<u8> {
    let mut t = Vec::new();
    t.extend_from_slice(&0x00010000u32.to_be_bytes());
    t.extend_from_slice(&800i16.to_be_bytes());
    t.extend_from_slice(&(-200i16).to_be_bytes());
    t.extend_from_slice(&0i16.to_be_bytes());
    t.extend_from_slice(&[0u8; 24]);
    t.extend_from_slice(&1u16.to_be_bytes());
    t
}

fn maxp_table() -> Vec<u8> {
    let mut t = Vec::new();
    t.extend_from_slice(&0x00005000u32.to_be_bytes());
    t.extend_from_slice(&1u16.to_be_bytes());
    t
}

fn fvar_table() -> Vec<u8> {
    let mut t = Vec::new();
    t.extend_from_slice(&0x00010000u32.to_be_bytes());
    t.extend_from_slice(&12u16.to_be_bytes());
    t.extend_from_slice(&0u16.to_be_bytes());
    t.extend_from_slice(&1u16.to_be_bytes());
    t.extend_from_slice(&20u16.to_be_bytes());
    t.extend_from_slice(b"wght");
    t.extend_from_slice(&(100i32 << 16).to_be_bytes());
    t.extend_from_slice(&(400i32 << 16).to_be_bytes());
    t.extend_from_slice(&(900i32 << 16).to_be_bytes());
    t.extend_from_slice(&0u16.to_be_bytes());
    t.extend_from_slice(&256u16.to_be_bytes());
    t
}

/// A minimal single-face font whose table offsets are absolute within the
/// final file, which starts `base` bytes before this face's header.
fn build_face(names: &[TestName], variable: bool, base: u32) -> Vec<u8> {
    let mut tables: Vec<(&[u8; 4], Vec<u8>)> = Vec::new();
    if variable {
        tables.push((b"fvar", fvar_table()));
    }
    tables.push((b"head", head_table()));
    tables.push((b"hhea", hhea_table()));
    tables.push((b"maxp", maxp_table()));
    tables.push((b"name", name_table(names)));

    let num = tables.len() as u16;
    let mut font = Vec::new();
    font.extend_from_slice(&0x00010000u32.to_be_bytes());
    font.extend_from_slice(&num.to_be_bytes());
    font.extend_from_slice(&[0u8; 6]);

    let mut offset = base + 12 + 16 * num as u32;
    let mut body = Vec::new();
    for (tag, data) in &tables {
        font.extend_from_slice(*tag);
        font.extend_from_slice(&0u32.to_be_bytes());
        font.extend_from_slice(&offset.to_be_bytes());
        font.extend_from_slice(&(data.len() as u32).to_be_bytes());
        offset += data.len() as u32;
        body.extend_from_slice(data);
    }
    font.extend_from_slice(&body);
    font
}

fn simple_font(full_name: &str, variable: bool) -> Vec<u8> {
    build_face(
        &[windows_name(1, "Family"), windows_name(4, full_name)],
        variable,
        0,
    )
}

#[test]
fn introspection_reads_full_names_only() {
    let data = simple_font("Demo Sans", false);
    let (names, variable) = get_font_names(&data);
    assert_eq!(names, vec!["Demo Sans".to_string()]);
    assert!(!variable);
}

#[test]
fn introspection_detects_variable_faces() {
    let data = simple_font("Vari Sans", true);
    let (names, variable) = get_font_names(&data);
    assert_eq!(names, vec!["Vari Sans".to_string()]);
    assert!(variable);
}

#[test]
fn introspection_falls_back_to_raw_utf8() {
    let data = build_face(&[mac_name(4, b"Mac Face")], false, 0);
    let (names, _) = get_font_names(&data);
    assert_eq!(names, vec!["Mac Face".to_string()]);
}

#[test]
fn introspection_drops_undecodable_entries() {
    let data = build_face(&[mac_name(4, &[0xFF, 0xFE, 0xFD])], false, 0);
    let (names, _) = get_font_names(&data);
    assert!(names.is_empty());
}

#[test]
fn introspection_dedups_names() {
    let data = build_face(
        &[windows_name(4, "Twin"), windows_name(4, "Twin")],
        false,
        0,
    );
    let (names, _) = get_font_names(&data);
    assert_eq!(names, vec!["Twin".to_string()]);
}

#[test]
fn introspection_of_garbage_is_empty() {
    let (names, variable) = get_font_names(b"not a font at all");
    assert!(names.is_empty());
    assert!(!variable);
}

#[test]
fn introspection_unions_collection_faces() {
    let header_len: u32 = 12 + 4 * 2;
    let face_a = build_face(&[windows_name(4, "Coll A")], false, header_len);
    let face_b = build_face(
        &[windows_name(4, "Coll B"), windows_name(4, "Coll A")],
        false,
        header_len + face_a.len() as u32,
    );
    let mut ttc = Vec::new();
    ttc.extend_from_slice(b"ttcf");
    ttc.extend_from_slice(&0x00010000u32.to_be_bytes());
    ttc.extend_from_slice(&2u32.to_be_bytes());
    ttc.extend_from_slice(&header_len.to_be_bytes());
    ttc.extend_from_slice(&(header_len + face_a.len() as u32).to_be_bytes());
    ttc.extend_from_slice(&face_a);
    ttc.extend_from_slice(&face_b);
    let (names, _) = get_font_names(&ttc);
    assert_eq!(names, vec!["Coll A".to_string(), "Coll B".to_string()]);
}

#[test]
fn lookup_exact_match() {
    let mut index = FontProviders::new();
    index.index("demo.ttf".to_string(), &simple_font("Demo Sans", false));
    assert_eq!(index.file_by_font_name("Demo Sans"), Some("demo.ttf".to_string()));
    assert_eq!(index.file_by_font_name("Absent"), None);
}

#[test]
fn lookup_falls_back_only_onto_variable_family() {
    let mut index = FontProviders::new();
    index.index("stat.ttf".to_string(), &simple_font("Stat", false));
    index.index("vari.ttf".to_string(), &simple_font("Vari", true));
    assert_eq!(index.file_by_font_name("Vari Bold"), Some("vari.ttf".to_string()));
    assert_eq!(index.file_by_font_name("Stat Bold"), None);
    assert_eq!(index.file_by_font_name("Stat"), Some("stat.ttf".to_string()));
}

#[test]
fn lookup_last_indexed_file_wins() {
    let mut index = FontProviders::new();
    index.index("one.ttf".to_string(), &simple_font("Dup", false));
    index.index("two.ttf".to_string(), &simple_font("Dup", false));
    assert_eq!(index.file_by_font_name("Dup"), Some("two.ttf".to_string()));
}

#[test]
fn unparsable_file_contributes_nothing() {
    let mut index = FontProviders::new();
    index.index("bad.ttf".to_string(), b"garbage");
    assert_eq!(index.file_by_font_name("garbage"), None);
}

#[test]
fn serialize_round_trip_preserves_resolution() {
    let mut index = FontProviders::new();
    index.index("a.ttf".to_string(), &simple_font("Alpha Sans", false));
    index.index("v.ttf".to_string(), &simple_font("Vari", true));
    let bytes = index.serialize();
    let back = FontProviders::deserialize(&bytes).unwrap();
    for name in ["Alpha Sans", "Vari", "Vari Bold", "Alpha Sans Bold", "Missing"] {
        assert_eq!(back.file_by_font_name(name), index.file_by_font_name(name));
    }
}

#[test]
fn deserialize_rejects_foreign_bytes() {
    match FontProviders::deserialize(&[0xFFu8; 7]) {
        Err(e) => assert_eq!(e, FontIndexError::Decode),
        Ok(_) => panic!("foreign bytes must not decode"),
    }
}

#[test]
fn make_absolute_prefixes_relative_paths() {
    let mut index = FontProviders::new();
    index.index("fonts/r.ttf".to_string(), &simple_font("Rel", false));
    index.index("/abs/a.ttf".to_string(), &simple_font("Abs", false));
    assert!(index.make_absolute("/base").is_ok());
    assert_eq!(index.file_by_font_name("Rel"), Some("/base/fonts/r.ttf".to_string()));
    assert_eq!(index.file_by_font_name("Abs"), Some("/abs/a.ttf".to_string()));
}

#[test]
fn make_absolute_rejects_empty_path() {
    let mut index = FontProviders::new();
    index.index(String::new(), &simple_font("Empty", false));
    assert_eq!(index.make_absolute("/base").unwrap_err(), FontIndexError::EmptyPath);
    assert_eq!(index.file_by_font_name("Empty"), Some(String::new()));
}
