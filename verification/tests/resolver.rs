use fntldr::utils::ext_endswith;
use fntldr::utils::get_cache_path;
use fntldr::utils::get_cache_path_fallback;
use fntldr::utils::get_font_list_path;
use fntldr::utils::is_font;
use fntldr::utils::is_ssa;
use fntldr::utils::parse_weight;
use fntldr::utils::str_eq;
use fntldr::utils::str_le;

#[test]
fn resolve_recognized_weight() {
    assert_eq!(parse_weight("Example Bold"), ("Example", "Bold"));
}

#[test]
fn resolve_unrecognized_suffix() {
    assert_eq!(parse_weight("Example Foo"), ("Example Foo", "Regular"));
}

#[test]
fn resolve_weight_case_insensitive() {
    assert_eq!(parse_weight("Example BOLD"), ("Example", "BOLD"));
    assert_eq!(parse_weight("Example semiLight"), ("Example", "semiLight"));
}

#[test]
fn resolve_no_space() {
    assert_eq!(parse_weight("Example"), ("Example", "Regular"));
}

#[test]
fn resolve_splits_at_last_space() {
    assert_eq!(parse_weight("Noto Sans Medium"), ("Noto Sans", "Medium"));
}

#[test]
fn resolve_empty_name() {
    assert_eq!(parse_weight(""), ("", "Regular"));
}

#[test]
fn font_list_path_default() {
    assert_eq!(get_font_list_path(None), "./fonts.txt");
}

#[test]
fn font_extensions() {
    assert!(is_font("/fonts/a.ttf"));
    assert!(is_font("b.OTF"));
    assert!(is_font("dir.d/c.TtC"));
    assert!(!is_font("a.ttx"));
    assert!(!is_font("attf"));
    assert!(!is_font(".ttf"));
    assert!(!is_font("dir.ttf/file"));
}

#[test]
fn ssa_extensions() {
    assert!(is_ssa("subs/x.ass"));
    assert!(is_ssa("x.SSA"));
    assert!(!is_ssa("x.srt"));
    assert!(!is_ssa("x"));
}

#[test]
fn ext_endswith_custom_list() {
    let exts = vec!["srt", "vtt"];
    assert!(ext_endswith("a/b/c.SRT", &exts));
    assert!(!ext_endswith("a/b/c.ssa", &exts));
}

#[test]
fn cache_path_cases() {
    assert_eq!(
        get_cache_path(None, false, "/home/u/.cache"),
        "/home/u/.cache/fntldr/fntldr_cache.bin"
    );
    assert_eq!(get_cache_path(Some("/tmp/c.bin"), true, "/home/u/.cache"), "/tmp/c.bin");
    assert_eq!(
        get_cache_path(Some("/tmp/dir"), false, "/home/u/.cache"),
        "/tmp/dir/fntldr_cache.bin"
    );
}

#[test]
fn cache_path_fallback_cases() {
    assert_eq!(
        get_cache_path_fallback(Some("/tmp/c.bin"), true, false, "/c"),
        "/tmp/c.bin"
    );
    assert_eq!(
        get_cache_path_fallback(None, false, true, "/c"),
        "./fntldr_cache.bin"
    );
    assert_eq!(
        get_cache_path_fallback(None, false, false, "/c"),
        "/c/fntldr/fntldr_cache.bin"
    );
}

#[test]
fn string_compare_helpers() {
    assert!(str_eq("abc", "abc"));
    assert!(!str_eq("abc", "abd"));
    assert!(!str_eq("abc", "ab"));
    assert!(str_le("abc", "abd"));
    assert!(str_le("ab", "abc"));
    assert!(!str_le("b", "abc"));
    assert!(str_le("abc", "abc"));
}
