use fntldr::system::list_entry;
use fntldr::system::select_fonts_to_load;
use fntldr::Finder;
use fntldr::FontProviders;
use fntldr::Loader;

fn strings(items: &[&str]) -> Vec<String> {
    items.iter().map(|s| s.to_string()).collect()
}

#[test]
fn scope_unregisters_all_on_success() {
    let mut loader = Loader::new();
    let files = strings(&["a.ttf", "b.ttf", "c.ttf"]);
    let outcomes = vec![true, true, true];
    assert!(loader.load(&files, &outcomes).is_ok());
    assert_eq!(loader.unload_all(), files);
    assert!(loader.unload_all().is_empty());
}

#[test]
fn scope_unregisters_exactly_the_registered_prefix_on_failure() {
    let mut loader = Loader::new();
    let files = strings(&["a.ttf", "b.ttf", "c.ttf", "d.ttf"]);
    let outcomes = vec![true, true, false, true];
    assert_eq!(loader.load(&files, &outcomes), Err(2));
    assert_eq!(loader.unload_all(), strings(&["a.ttf", "b.ttf"]));
    assert!(loader.unload_all().is_empty());
}

#[test]
fn scope_failure_at_first_file_registers_nothing() {
    let mut loader = Loader::new();
    let files = strings(&["a.ttf"]);
    assert_eq!(loader.load(&files, &vec![false]), Err(0));
    assert!(loader.unload_all().is_empty());
}

#[test]
fn scope_accumulates_across_batches() {
    let mut loader = Loader::new();
    assert!(loader.load(&strings(&["a.ttf"]), &vec![true]).is_ok());
    assert_eq!(loader.load(&strings(&["b.ttf", "c.ttf"]), &vec![true, false]), Err(1));
    assert_eq!(loader.unload_all(), strings(&["a.ttf", "b.ttf"]));
}

#[test]
fn register_records_only_successes() {
    let mut loader = Loader::new();
    loader.register("x.ttf".to_string(), true);
    loader.register("y.ttf".to_string(), false);
    loader.register("z.ttf".to_string(), true);
    assert_eq!(loader.unload_all(), strings(&["x.ttf", "z.ttf"]));
}

#[test]
fn finder_accepts_exact_family_match_only() {
    let finder = Finder::new();
    let file = "/usr/share/fonts/n.ttf".to_string();
    let families = strings(&["Noto Sans", "Noto Sans Display"]);
    assert_eq!(
        finder.get_font_file("NOTO SANS Bold", &families, &file),
        Some(file.clone())
    );
    assert_eq!(finder.get_font_file("DejaVu Sans", &families, &file), None);
}

#[test]
fn finder_rejects_alias_substitution() {
    let finder = Finder::new();
    let file = "/usr/share/fonts/d.ttf".to_string();
    let families = strings(&["DejaVu Sans"]);
    assert_eq!(finder.get_font_file("sans-serif", &families, &file), None);
}

#[test]
fn select_skips_installed_and_missing_names() {
    let mut cache = FontProviders::new();
    cache.index("demo.ttf".to_string(), &demo_font("Demo Sans"));
    cache.index("other.ttf".to_string(), &demo_font("Other Sans"));
    let names = strings(&["Demo Sans", "Installed One", "Missing One", "Other Sans"]);
    let installed = vec![false, true, false, false];
    let (load_names, load_files) = select_fonts_to_load(&names, &installed, &cache);
    assert_eq!(load_names, strings(&["Demo Sans", "Other Sans"]));
    assert_eq!(load_files, strings(&["demo.ttf", "other.ttf"]));
}

#[test]
fn select_dedups_files_but_keeps_names() {
    let mut cache = FontProviders::new();
    cache.index("two.ttf".to_string(), &demo_font("Dup"));
    cache.index("two.ttf".to_string(), &demo_font("Dup Heavy"));
    let names = strings(&["Dup", "Dup Heavy"]);
    let installed = vec![false, false];
    let (load_names, load_files) = select_fonts_to_load(&names, &installed, &cache);
    assert_eq!(load_names, strings(&["Dup", "Dup Heavy"]));
    assert_eq!(load_files, strings(&["two.ttf"]));
}

#[test]
fn list_entry_markers() {
    assert_eq!(
        list_entry(Some("i.ttf".to_string()), Some("c.ttf".to_string())),
        ('*', Some("i.ttf".to_string()))
    );
    assert_eq!(
        list_entry(None, Some("c.ttf".to_string())),
        ('-', Some("c.ttf".to_string()))
    );
    assert_eq!(list_entry(None, None), (' ', None));
}

/// A minimal single-face font exposing `full_name` under the full-name
/// identifier.
fn demo_font(full_name: &str) -> Vec<u8> {
    let mut name_bytes = Vec::new();
    for unit in full_name.encode_utf16() {
        name_bytes.extend_from_slice(&unit.to_be_bytes());
    }
    let mut name_table = Vec::new();
    name_table.extend_from_slice(&0u16.to_be_bytes());
    name_table.extend_from_slice(&1u16.to_be_bytes());
    name_table.extend_from_slice(&18u16.to_be_bytes());
    name_table.extend_from_slice(&3u16.to_be_bytes());
    name_table.extend_from_slice(&1u16.to_be_bytes());
    name_table.extend_from_slice(&0x409u16.to_be_bytes());
    name_table.extend_from_slice(&4u16.to_be_bytes());
    name_table.extend_from_slice(&(name_bytes.len() as u16).to_be_bytes());
    name_table.extend_from_slice(&0u16.to_be_bytes());
    name_table.extend_from_slice(&name_bytes);

    let mut head = Vec::new();
    head.extend_from_slice(&0x00010000u32.to_be_bytes());
    head.extend_from_slice(&[0u8; 12]);
    head.extend_from_slice(&0u16.to_be_bytes());
    head.extend_from_slice(&1000u16.to_be_bytes());
    head.extend_from_slice(&[0u8; 24]);
    head.extend_from_slice(&[0u8; 10]);

    let mut hhea = Vec::new();
    hhea.extend_from_slice(&0x00010000u32.to_be_bytes());
    hhea.extend_from_slice(&[0u8; 30]);
    hhea.extend_from_slice(&1u16.to_be_bytes());

    let mut maxp = Vec::new();
    maxp.extend_from_slice(&0x00005000u32.to_be_bytes());
    maxp.extend_from_slice(&1u16.to_be_bytes());

    let tables: [(&[u8; 4], &Vec<u8>); 4] =
        [(b"head", &head), (b"hhea", &hhea), (b"maxp", &maxp), (b"name", &name_table)];
    let mut font = Vec::new();
    font.extend_from_slice(&0x00010000u32.to_be_bytes());
    font.extend_from_slice(&4u16.to_be_bytes());
    font.extend_from_slice(&[0u8; 6]);
    let mut offset: u32 = 12 + 16 * 4;
    let mut body = Vec::new();
    for (tag, data) in tables {
        font.extend_from_slice(tag);
        font.extend_from_slice(&0u32.to_be_bytes());
        font.extend_from_slice(&offset.to_be_bytes());
        font.extend_from_slice(&(data.len() as u32).to_be_bytes());
        offset += data.len() as u32;
        body.extend_from_slice(data);
    }
    font.extend_from_slice(&body);
    font
}
